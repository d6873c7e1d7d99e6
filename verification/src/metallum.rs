//! The paginated-API scraper: fetches fixed-size pages of a JSON release
//! listing until an empty page arrives, and decodes each record's embedded
//! HTML anchor fragments into releases.

use vstd::prelude::*;

use crate::calendar::{Calendar, Release};
use crate::client::Client;
use crate::error::Error;
use crate::text;
use crate::text::Date;

verus! {

/// One page of the paginated listing, already decoded from JSON into plain
/// records of six text fields each.
pub struct MetallumReleases {
    pub total_records: i32,
    pub total_display_records: i32,
    pub data: Vec<Vec<String>>,
}

/// The decoded parts of one raw record.
pub struct MetallumReleaseParts {
    pub artist: String,
    pub artist_link: String,
    pub album: String,
    pub album_link: String,
    pub release_type: String,
    pub genre: String,
    pub release_date: Date,
}

/// The mathematical value of a [`MetallumReleaseParts`].
pub struct MetallumPartsView {
    pub artist: Seq<char>,
    pub artist_link: Seq<char>,
    pub album: Seq<char>,
    pub album_link: Seq<char>,
    pub release_type: Seq<char>,
    pub genre: Seq<char>,
    pub release_date: Date,
}

impl View for MetallumReleaseParts {
    type V = MetallumPartsView;

    open spec fn view(&self) -> MetallumPartsView {
        MetallumPartsView {
            artist: self.artist@,
            artist_link: self.artist_link@,
            album: self.album@,
            album_link: self.album_link@,
            release_type: self.release_type@,
            genre: self.genre@,
            release_date: self.release_date,
        }
    }
}

/// The anchors of an HTML fragment: each anchor's display text and href, in
/// document order.
pub uninterp spec fn anchors_of(s: Seq<char>) -> Seq<(Seq<char>, Seq<char>)>;

/// The views of a list of extracted anchor pairs.
pub open spec fn pair_views(v: Seq<(String, String)>) -> Seq<(Seq<char>, Seq<char>)> {
    v.map_values(|p: (String, String)| (p.0@, p.1@))
}

/// Relies on scraper's `Html::parse_fragment` and selection of `a` elements:
/// the anchors found in a fragment — each one's concatenated display text
/// and its href, an absent href read as "" — depend on the fragment text
/// alone.
#[verifier::external_body]
fn extract_anchors(fragment: &str) -> (r: Vec<(String, String)>)
    ensures
        pair_views(r@) == anchors_of(fragment@),
{
    let selector = scraper::Selector::parse("a").unwrap();
    scraper::Html::parse_fragment(fragment)
        .select(&selector)
        .map(|el| {
            let text: String = el.text().collect::<Vec<&str>>().join("");
            let href = el.value().attr("href").unwrap_or("").to_string();
            (text, href)
        })
        .collect()
}

/// The anchor display texts joined with `" / "`.
pub open spec fn joined_artists(anchors: Seq<(Seq<char>, Seq<char>)>) -> Seq<char>
    decreases anchors.len(),
{
    if anchors.len() == 0 {
        Seq::empty()
    } else if anchors.len() == 1 {
        anchors[0].0
    } else {
        anchors[0].0 + " / "@ + joined_artists(anchors.drop_first())
    }
}

/// What decoding one raw record yields: the combined artists and the first
/// artist href from the artist cell, the first anchor of the album cell, the
/// plain type and genre cells, and the parsed release date. A record without
/// the required fields or anchors fails with `NoItem`; an unreadable date
/// fails with `ParseFail`.
pub open spec fn decoded(rec: Seq<Seq<char>>) -> Result<MetallumPartsView, Error> {
    if rec.len() < 1 {
        Err(Error::NoItem)
    } else {
        let a0 = anchors_of(rec[0]);
        if a0.len() == 0 {
            Err(Error::NoItem)
        } else if rec.len() < 2 {
            Err(Error::NoItem)
        } else {
            let a1 = anchors_of(rec[1]);
            if a1.len() == 0 {
                Err(Error::NoItem)
            } else if rec.len() < 5 {
                Err(Error::NoItem)
            } else {
                match text::spec_parse_date(rec[4]) {
                    None => Err(Error::ParseFail),
                    Some(dt) => Ok(
                        MetallumPartsView {
                            artist: joined_artists(a0),
                            artist_link: a0[0].1,
                            album: a1[0].0,
                            album_link: a1[0].1,
                            release_type: rec[2],
                            genre: rec[3],
                            release_date: dt,
                        },
                    ),
                }
            }
        }
    }
}

proof fn lemma_joined_push(a: Seq<(Seq<char>, Seq<char>)>, x: (Seq<char>, Seq<char>))
    ensures
        joined_artists(a.push(x)) == if a.len() == 0 {
            x.0
        } else {
            joined_artists(a) + " / "@ + x.0
        },
    decreases a.len(),
{
    if a.len() == 0 {
        assert(a.push(x)[0] == x);
    } else if a.len() == 1 {
        assert(a.push(x).drop_first() =~= seq![x]);
        assert(joined_artists(seq![x]) == x.0);
    } else {
        assert(a.push(x)[0] == a[0]);
        assert(a.push(x).drop_first() =~= a.drop_first().push(x));
        lemma_joined_push(a.drop_first(), x);
        assert(a[0].0 + " / "@ + (joined_artists(a.drop_first()) + " / "@ + x.0) =~= (a[0].0
            + " / "@ + joined_artists(a.drop_first())) + " / "@ + x.0);
    }
}

impl MetallumReleaseParts {
    /// Decodes one raw record of the paginated listing.
    pub fn from_release(release: &Vec<String>) -> (r: Result<MetallumReleaseParts, Error>)
        ensures
            match r {
                Ok(p) => decoded(text::string_views(release@)) == Ok::<MetallumPartsView, Error>(
                    p@,
                ),
                Err(e) => decoded(text::string_views(release@)) == Err::<MetallumPartsView, Error>(
                    e,
                ),
            },
    {
        let ghost rec = text::string_views(release@);
        if release.len() < 1 {
            return Err(Error::NoItem);
        }
        proof {
            assert(rec[0] == release@[0]@);
        }
        let a0 = extract_anchors(release[0].as_str());
        let ghost av = pair_views(a0@);
        if a0.len() == 0 {
            proof {
                assert(av.len() == 0);
            }
            return Err(Error::NoItem);
        }
        let mut artist = String::new();
        let mut k: usize = 0;
        proof {
            assert(av.take(0) =~= Seq::<(Seq<char>, Seq<char>)>::empty());
        }
        while k < a0.len()
            invariant
                0 <= k <= a0@.len(),
                av == pair_views(a0@),
                artist@ == joined_artists(av.take(k as int)),
            decreases a0@.len() - k,
        {
            if k > 0 {
                artist.append(" / ");
            }
            artist.append(a0[k].0.as_str());
            proof {
                lemma_joined_push(av.take(k as int), av[k as int]);
                assert(av.take(k + 1) =~= av.take(k as int).push(av[k as int]));
                assert(av[k as int].0 == a0@[k as int].0@);
            }
            k = k + 1;
        }
        proof {
            assert(av.take(a0@.len() as int) =~= av);
        }
        let artist_link = a0[0].1.clone();
        proof {
            assert(av[0].1 == a0@[0].1@);
        }
        if release.len() < 2 {
            return Err(Error::NoItem);
        }
        proof {
            assert(rec[1] == release@[1]@);
        }
        let a1 = extract_anchors(release[1].as_str());
        if a1.len() == 0 {
            proof {
                assert(pair_views(a1@).len() == 0);
            }
            return Err(Error::NoItem);
        }
        let album = a1[0].0.clone();
        let album_link = a1[0].1.clone();
        proof {
            assert(pair_views(a1@)[0].0 == a1@[0].0@);
            assert(pair_views(a1@)[0].1 == a1@[0].1@);
        }
        if release.len() < 5 {
            return Err(Error::NoItem);
        }
        proof {
            assert(rec[2] == release@[2]@);
            assert(rec[3] == release@[3]@);
            assert(rec[4] == release@[4]@);
        }
        let release_date = match text::parse_free_text_date(release[4].as_str()) {
            Ok(dt) => dt,
            Err(e) => {
                return Err(e);
            },
        };
        Ok(
            MetallumReleaseParts {
                artist,
                artist_link,
                album,
                album_link,
                release_type: release[2].clone(),
                genre: release[3].clone(),
                release_date,
            },
        )
    }
}

/// Fetches pages of the release listing through `client` until an empty page
/// arrives, decoding every record into the year's calendar. A record that
/// cannot be decoded aborts the whole scrape with its error. The page
/// counter's type bounds the walk, so a source that never signals emptiness
/// ends the scrape once the counter is exhausted.
pub fn scrape<C: Client>(client: &C, year: i32) -> (r: Result<Calendar, Error>)
    ensures
        match r {
            Ok(c) => c.wf() && c.year == year,
            Err(e) => true,
        },
{
    let mut calendar = Calendar::new(year);
    let mut page: u16 = 0;
    while page < 65535
        invariant
            calendar.wf(),
            calendar.year == year,
        decreases 65535 - page,
    {
        match client.fetch_metallum(page) {
            Some(releases) => {
                let nr = releases.data.len();
                let mut ri: usize = 0;
                while ri < nr
                    invariant
                        0 <= ri <= nr,
                        nr == releases.data@.len(),
                        calendar.wf(),
                        calendar.year == year,
                    decreases nr - ri,
                {
                    match MetallumReleaseParts::from_release(&releases.data[ri]) {
                        Ok(parts) => {
                            let rel = Release::new(
                                parts.artist.as_str(),
                                parts.album.as_str(),
                            ).with_metallum(
                                parts.artist_link.as_str(),
                                parts.album_link.as_str(),
                                parts.release_type.as_str(),
                                parts.genre.as_str(),
                            );
                            calendar.add_release(
                                parts.release_date.month,
                                parts.release_date.day,
                                rel,
                            );
                        },
                        Err(e) => {
                            return Err(e);
                        },
                    }
                    ri = ri + 1;
                }
            },
            None => {
                return Ok(calendar);
            },
        }
        page = page + 1;
    }
    Ok(calendar)
}

} // verus!
