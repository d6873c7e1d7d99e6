//! The table scraper: walks the monthly tables of a wiki-style document and
//! interprets each row's shape — one cell continues the previous artist, two
//! cells start a new artist, three cells start a new day.

use vstd::prelude::*;

use crate::calendar::{add_one, Calendar, Month, Release, ReleaseView};
use crate::error::Error;
use crate::text;

verus! {

/// One table of the document: the month identifier it stands under, and its
/// rows, each row the raw text of its cells.
pub struct WikiTable {
    pub month: Month,
    pub rows: Vec<Vec<String>>,
}

/// A document reduced to what the scraper reads: its month tables, in
/// document order.
pub struct WikiDoc {
    pub tables: Vec<WikiTable>,
}

/// The cell texts of one row.
pub open spec fn row_view(r: Vec<String>) -> Seq<Seq<char>> {
    text::string_views(r@)
}

/// The cell texts of a table's rows.
pub open spec fn rows_view(rows: Seq<Vec<String>>) -> Seq<Seq<Seq<char>>> {
    rows.map_values(|r: Vec<String>| row_view(r))
}

/// The running state of the row interpreter.
pub struct TableState {
    pub day: u8,
    pub artist: Seq<char>,
}

/// The state every table starts from: day 1, no artist.
pub open spec fn start_state() -> TableState {
    TableState { day: 1, artist: Seq::empty() }
}

/// The release a row contributes: the artist as given, the album normalized.
pub open spec fn mk_rel(artist: Seq<char>, album: Seq<char>) -> ReleaseView {
    ReleaseView { artist, album: text::normalized(album), metallum_info: None }
}

/// The interpreter state after one row: a two-cell row renames the artist; a
/// three-cell row moves the day when its first cell is a number, and renames
/// the artist; other shapes change nothing.
pub open spec fn step_state(st: TableState, row: Seq<Seq<char>>) -> TableState {
    if row.len() == 2 {
        TableState { day: st.day, artist: text::trimmed(row[0]) }
    } else if row.len() == 3 {
        let day2 = match text::parse_unsigned_spec(text::trimmed(row[0])) {
            Some(v) => if 0 <= v <= 255 {
                v as u8
            } else {
                st.day
            },
            None => st.day,
        };
        TableState { day: day2, artist: text::trimmed(row[1]) }
    } else {
        st
    }
}

/// What one row emits: a one-cell row an album for the current artist and
/// day; a two-cell row an artist and album; a three-cell row the same under
/// its own day, unless it is a repeated header row; other shapes nothing.
pub open spec fn step_emit(st: TableState, row: Seq<Seq<char>>) -> Seq<(u8, ReleaseView)> {
    if row.len() == 1 {
        seq![(st.day, mk_rel(st.artist, text::trimmed(row[0])))]
    } else if row.len() == 2 {
        seq![(st.day, mk_rel(text::trimmed(row[0]), text::trimmed(row[1])))]
    } else if row.len() == 3 {
        let st2 = step_state(st, row);
        if text::trimmed(row[1]) == "Artist"@ {
            Seq::empty()
        } else {
            seq![(st2.day, mk_rel(st2.artist, text::trimmed(row[2])))]
        }
    } else {
        Seq::empty()
    }
}

/// The interpreter state after a run of rows.
pub open spec fn state_after(rows: Seq<Seq<Seq<char>>>, st: TableState) -> TableState
    decreases rows.len(),
{
    if rows.len() == 0 {
        st
    } else {
        state_after(rows.drop_first(), step_state(st, rows[0]))
    }
}

/// Everything a run of rows emits, in order.
pub open spec fn table_emissions(rows: Seq<Seq<Seq<char>>>, st: TableState) -> Seq<
    (u8, ReleaseView),
>
    decreases rows.len(),
{
    if rows.len() == 0 {
        Seq::empty()
    } else {
        step_emit(st, rows[0]) + table_emissions(rows.drop_first(), step_state(st, rows[0]))
    }
}

/// A day list after recording a run of emissions for day `d`, each under the
/// calendar's insertion rule.
pub open spec fn add_emissions(
    s: Seq<ReleaseView>,
    ems: Seq<(u8, ReleaseView)>,
    d: int,
) -> Seq<ReleaseView>
    decreases ems.len(),
{
    if ems.len() == 0 {
        s
    } else {
        add_emissions(
            if ems[0].0 == d {
                add_one(s, ems[0].1)
            } else {
                s
            },
            ems.drop_first(),
            d,
        )
    }
}

proof fn lemma_emissions_snoc(rows: Seq<Seq<Seq<char>>>, st: TableState, r: Seq<Seq<char>>)
    ensures
        table_emissions(rows.push(r), st) == table_emissions(rows, st) + step_emit(
            state_after(rows, st),
            r,
        ),
        state_after(rows.push(r), st) == step_state(state_after(rows, st), r),
    decreases rows.len(),
{
    if rows.len() == 0 {
        assert(rows.push(r)[0] == r);
        assert(rows.push(r).drop_first() =~= Seq::<Seq<Seq<char>>>::empty());
        assert(table_emissions(Seq::<Seq<Seq<char>>>::empty(), step_state(st, r)) =~= Seq::<
            (u8, ReleaseView),
        >::empty());
        assert(state_after(Seq::<Seq<Seq<char>>>::empty(), step_state(st, r)) == step_state(st, r));
        assert(table_emissions(rows.push(r), st) =~= step_emit(st, r));
        assert(table_emissions(rows, st) + step_emit(st, r) =~= step_emit(st, r));
    } else {
        assert(rows.push(r)[0] == rows[0]);
        assert(rows.push(r).drop_first() =~= rows.drop_first().push(r));
        lemma_emissions_snoc(rows.drop_first(), step_state(st, rows[0]), r);
        assert(step_emit(st, rows[0]) + (table_emissions(rows.drop_first(), step_state(st, rows[0]))
            + step_emit(state_after(rows.drop_first(), step_state(st, rows[0])), r)) =~= (step_emit(
            st,
            rows[0],
        ) + table_emissions(rows.drop_first(), step_state(st, rows[0]))) + step_emit(
            state_after(rows, st),
            r,
        ));
    }
}

proof fn lemma_add_emissions_snoc(
    s: Seq<ReleaseView>,
    ems: Seq<(u8, ReleaseView)>,
    e: (u8, ReleaseView),
    d: int,
)
    ensures
        add_emissions(s, ems.push(e), d) == if e.0 == d {
            add_one(add_emissions(s, ems, d), e.1)
        } else {
            add_emissions(s, ems, d)
        },
    decreases ems.len(),
{
    if ems.len() == 0 {
        assert(ems.push(e)[0] == e);
        assert(ems.push(e).drop_first() =~= Seq::<(u8, ReleaseView)>::empty());
        let s2 = if e.0 == d {
            add_one(s, e.1)
        } else {
            s
        };
        assert(add_emissions(s2, Seq::<(u8, ReleaseView)>::empty(), d) == s2);
    } else {
        assert(ems.push(e)[0] == ems[0]);
        assert(ems.push(e).drop_first() =~= ems.drop_first().push(e));
        lemma_add_emissions_snoc(
            if ems[0].0 == d {
                add_one(s, ems[0].1)
            } else {
                s
            },
            ems.drop_first(),
            e,
            d,
        );
    }
}

proof fn lemma_add_emissions_concat(
    s: Seq<ReleaseView>,
    a: Seq<(u8, ReleaseView)>,
    b: Seq<(u8, ReleaseView)>,
    d: int,
)
    ensures
        add_emissions(s, a + b, d) == add_emissions(add_emissions(s, a, d), b, d),
    decreases a.len(),
{
    if a.len() == 0 {
        assert(a + b =~= b);
    } else {
        assert((a + b)[0] == a[0]);
        assert((a + b).drop_first() =~= a.drop_first() + b);
        lemma_add_emissions_concat(
            if a[0].0 == d {
                add_one(s, a[0].1)
            } else {
                s
            },
            a.drop_first(),
            b,
            d,
        );
    }
}

/// Interprets the rows of one table, recording what they emit into `month`
/// of `calendar`. Each table starts from day 1 and an empty artist.
pub fn process_table(rows: &Vec<Vec<String>>, calendar: &mut Calendar, month: Month)
    requires
        old(calendar).wf(),
    ensures
        final(calendar).wf(),
        final(calendar).year == old(calendar).year,
        forall|d: int|
            final(calendar).at(month.spec_number(), d) == add_emissions(
                old(calendar).at(month.spec_number(), d),
                table_emissions(rows_view(rows@), start_state()),
                d,
            ),
        forall|m: int, d: int|
            m != month.spec_number() ==> final(calendar).at(m, d) == old(calendar).at(m, d),
    {
    let ghost rv = rows_view(rows@);
    let ghost mnum = month.spec_number();
    let mut day: u8 = 1;
    let mut artist: String = String::new();
    let n = rows.len();
    let mut i: usize = 0;
    proof {
        assert(rv.take(0) =~= Seq::<Seq<Seq<char>>>::empty());
        assert forall|d: int| calendar.at(mnum, d) == add_emissions(
            old(calendar).at(mnum, d),
            table_emissions(rv.take(0), start_state()),
            d,
        ) by {
            assert(table_emissions(rv.take(0), start_state()) =~= Seq::<(u8, ReleaseView)>::empty());
        }
    }
    while i < n
        invariant
            0 <= i <= n,
            n == rows@.len(),
            rv == rows_view(rows@),
            mnum == month.spec_number(),
            calendar.wf(),
            calendar.year == old(calendar).year,
            (TableState { day, artist: artist@ }) == state_after(rv.take(i as int), start_state()),
            forall|d: int|
                calendar.at(mnum, d) == add_emissions(
                    old(calendar).at(mnum, d),
                    table_emissions(rv.take(i as int), start_state()),
                    d,
                ),
            forall|m: int, d: int| m != mnum ==> calendar.at(m, d) == old(calendar).at(m, d),
        decreases n - i,
    {
        let ghost st = state_after(rv.take(i as int), start_state());
        let ghost row = rv[i as int];
        proof {
            assert(row == row_view(rows@[i as int]));
            assert(rv.take(i + 1) =~= rv.take(i as int).push(row));
            lemma_emissions_snoc(rv.take(i as int), start_state(), row);
        }
        let len = rows[i].len();
        if len == 1 {
            let album = text::trim_str(rows[i][0].as_str());
            proof {
                assert(row[0] == rows@[i as int]@[0]@);
            }
            let rel = Release::new(artist.as_str(), album);
            calendar.add_release(month, day, rel);
            proof {
                let e = (day, rel@);
                assert(step_emit(st, row) =~= seq![e]);
                assert(table_emissions(rv.take(i + 1), start_state()) =~= table_emissions(
                    rv.take(i as int),
                    start_state(),
                ).push(e));
                assert forall|d: int| calendar.at(mnum, d) == add_emissions(
                    old(calendar).at(mnum, d),
                    table_emissions(rv.take(i + 1), start_state()),
                    d,
                ) by {
                    lemma_add_emissions_snoc(
                        old(calendar).at(mnum, d),
                        table_emissions(rv.take(i as int), start_state()),
                        e,
                        d,
                    );
                }
            }
        } else if len == 2 {
            let a = text::trim_str(rows[i][0].as_str());
            let album = text::trim_str(rows[i][1].as_str());
            proof {
                assert(row[0] == rows@[i as int]@[0]@);
                assert(row[1] == rows@[i as int]@[1]@);
            }
            artist = String::from_str(a);
            let rel = Release::new(a, album);
            calendar.add_release(month, day, rel);
            proof {
                let e = (day, rel@);
                assert(step_emit(st, row) =~= seq![e]);
                assert(table_emissions(rv.take(i + 1), start_state()) =~= table_emissions(
                    rv.take(i as int),
                    start_state(),
                ).push(e));
                assert forall|d: int| calendar.at(mnum, d) == add_emissions(
                    old(calendar).at(mnum, d),
                    table_emissions(rv.take(i + 1), start_state()),
                    d,
                ) by {
                    lemma_add_emissions_snoc(
                        old(calendar).at(mnum, d),
                        table_emissions(rv.take(i as int), start_state()),
                        e,
                        d,
                    );
                }
            }
        } else if len == 3 {
            let daycell = text::trim_str(rows[i][0].as_str());
            proof {
                assert(row[0] == rows@[i as int]@[0]@);
                assert(row[1] == rows@[i as int]@[1]@);
                assert(row[2] == rows@[i as int]@[2]@);
            }
            match text::parse_day(daycell) {
                Some(d2) => {
                    day = d2;
                },
                None => {},
            }
            let a = text::trim_str(rows[i][1].as_str());
            artist = String::from_str(a);
            if !text::str_eq(a, "Artist") {
                let album = text::trim_str(rows[i][2].as_str());
                let rel = Release::new(a, album);
                calendar.add_release(month, day, rel);
                proof {
                    let e = (day, rel@);
                    assert(step_emit(st, row) =~= seq![e]);
                    assert(table_emissions(rv.take(i + 1), start_state()) =~= table_emissions(
                        rv.take(i as int),
                        start_state(),
                    ).push(e));
                    assert forall|d: int| calendar.at(mnum, d) == add_emissions(
                        old(calendar).at(mnum, d),
                        table_emissions(rv.take(i + 1), start_state()),
                        d,
                    ) by {
                        lemma_add_emissions_snoc(
                            old(calendar).at(mnum, d),
                            table_emissions(rv.take(i as int), start_state()),
                            e,
                            d,
                        );
                    }
                }
            } else {
                proof {
                    assert(step_emit(st, row) =~= Seq::<(u8, ReleaseView)>::empty());
                    assert(table_emissions(rv.take(i + 1), start_state()) =~= table_emissions(
                        rv.take(i as int),
                        start_state(),
                    ));
                }
            }
        } else {
            proof {
                assert(step_emit(st, row) =~= Seq::<(u8, ReleaseView)>::empty());
                assert(table_emissions(rv.take(i + 1), start_state()) =~= table_emissions(
                    rv.take(i as int),
                    start_state(),
                ));
            }
        }
        i = i + 1;
    }
    proof {
        assert(rv.take(n as int) =~= rv);
    }
}

// ---------------------------------------------------------------------------
// Document walking
// ---------------------------------------------------------------------------

/// Holds of the tables standing under `month`'s identifier.
pub open spec fn under_month(month: Month) -> spec_fn(WikiTable) -> bool {
    |t: WikiTable| t.month == month
}

/// The document's tables under `month`'s identifier, in document order.
pub open spec fn tables_with(docv: Seq<WikiTable>, month: Month) -> Seq<WikiTable> {
    docv.filter(under_month(month))
}

/// Everything a run of tables emits, each starting from the initial state.
pub open spec fn tables_emissions(ts: Seq<WikiTable>) -> Seq<(u8, ReleaseView)>
    decreases ts.len(),
{
    if ts.len() == 0 {
        Seq::empty()
    } else {
        table_emissions(rows_view(ts[0].rows@), start_state()) + tables_emissions(ts.drop_first())
    }
}

/// The tables processed as `month`, in processing order. A month with
/// exactly one table under its identifier is processed from it; when exactly
/// two tables stand under the November identifier, the first continues
/// October and the second is November; any other multiplicity is skipped.
pub open spec fn selected_tables(docv: Seq<WikiTable>, month: Month) -> Seq<WikiTable> {
    let own = tables_with(docv, month);
    let nov = tables_with(docv, Month::November);
    if month == Month::October {
        (if own.len() == 1 {
            own
        } else {
            Seq::empty()
        }) + (if nov.len() == 2 {
            seq![nov[0]]
        } else {
            Seq::empty()
        })
    } else if month == Month::November {
        if nov.len() == 2 {
            seq![nov[1]]
        } else if nov.len() == 1 {
            nov
        } else {
            Seq::empty()
        }
    } else {
        if own.len() == 1 {
            own
        } else {
            Seq::empty()
        }
    }
}

/// Everything the document contributes to `month`.
pub open spec fn month_emissions(docv: Seq<WikiTable>, month: Month) -> Seq<(u8, ReleaseView)> {
    tables_emissions(selected_tables(docv, month))
}

proof fn lemma_filter_push_table(a: Seq<WikiTable>, x: WikiTable, p: spec_fn(WikiTable) -> bool)
    ensures
        a.push(x).filter(p) == a.filter(p) + if p(x) {
            seq![x]
        } else {
            Seq::<WikiTable>::empty()
        },
{
    reveal(Seq::filter);
    assert(a.push(x).drop_last() =~= a);
    assert(a.push(x).last() == x);
    if p(x) {
        assert(a.filter(p).push(x) =~= a.filter(p) + seq![x]);
    } else {
        assert(a.filter(p) + Seq::<WikiTable>::empty() =~= a.filter(p));
    }
}

/// Finds the indices of the tables standing under `month`'s identifier.
fn find_tables(tables: &Vec<WikiTable>, month: Month) -> (idxs: Vec<usize>)
    ensures
        idxs@.len() == tables_with(tables@, month).len(),
        forall|j: int|
            0 <= j < idxs@.len() ==> (#[trigger] idxs@[j]) < tables@.len()
                && tables@[idxs@[j] as int] == tables_with(tables@, month)[j],
    {
    let n = tables.len();
    let mut idxs: Vec<usize> = Vec::new();
    let mut k: usize = 0;
    proof {
        reveal(Seq::filter);
        assert(tables@.take(0) =~= Seq::<WikiTable>::empty());
        assert(tables_with(tables@.take(0), month) =~= Seq::<WikiTable>::empty());
    }
    while k < n
        invariant
            0 <= k <= n,
            n == tables@.len(),
            idxs@.len() == tables_with(tables@.take(k as int), month).len(),
            forall|j: int|
                0 <= j < idxs@.len() ==> (#[trigger] idxs@[j]) < k && tables@[idxs@[j] as int]
                    == tables_with(tables@.take(k as int), month)[j],
        decreases n - k,
    {
        proof {
            assert(tables@.take(k + 1) =~= tables@.take(k as int).push(tables@[k as int]));
            lemma_filter_push_table(tables@.take(k as int), tables@[k as int], under_month(month));
        }
        let ghost before = tables_with(tables@.take(k as int), month);
        if tables[k].month == month {
            idxs.push(k);
            proof {
                assert(tables_with(tables@.take(k + 1), month) =~= before.push(tables@[k as int]));
                assert forall|j: int| 0 <= j < idxs@.len() implies (#[trigger] idxs@[j]) < k + 1
                    && tables@[idxs@[j] as int] == tables_with(tables@.take(k + 1), month)[j] by {
                    if j < idxs@.len() - 1 {
                        assert(idxs@[j] == idxs@.take(idxs@.len() - 1)[j]);
                    }
                }
            }
        } else {
            proof {
                assert(tables_with(tables@.take(k + 1), month) =~= before);
            }
        }
        k = k + 1;
    }
    proof {
        assert(tables@.take(n as int) =~= tables@);
    }
    idxs
}

proof fn lemma_tables_emissions_concat(a: Seq<WikiTable>, b: Seq<WikiTable>)
    ensures
        tables_emissions(a + b) == tables_emissions(a) + tables_emissions(b),
    decreases a.len(),
{
    if a.len() == 0 {
        assert(a + b =~= b);
        assert(tables_emissions(a) + tables_emissions(b) =~= tables_emissions(b));
    } else {
        assert((a + b)[0] == a[0]);
        assert((a + b).drop_first() =~= a.drop_first() + b);
        lemma_tables_emissions_concat(a.drop_first(), b);
        assert(table_emissions(rows_view(a[0].rows@), start_state()) + (tables_emissions(
            a.drop_first(),
        ) + tables_emissions(b)) =~= (table_emissions(rows_view(a[0].rows@), start_state())
            + tables_emissions(a.drop_first())) + tables_emissions(b));
    }
}

proof fn lemma_tables_emissions_single(t: WikiTable)
    ensures
        tables_emissions(seq![t]) == table_emissions(rows_view(t.rows@), start_state()),
{
    assert(seq![t].drop_first() =~= Seq::<WikiTable>::empty());
    assert(tables_emissions(Seq::<WikiTable>::empty()) =~= Seq::<(u8, ReleaseView)>::empty());
    assert(table_emissions(rows_view(t.rows@), start_state()) + Seq::<(u8, ReleaseView)>::empty()
        =~= table_emissions(rows_view(t.rows@), start_state()));
}

/// Builds the year's calendar from a wiki-style document: for each month,
/// the tables under its identifier are interpreted row by row, with the
/// October/November grouping handled as [`selected_tables`] describes.
pub fn extract_calendar(doc: &WikiDoc, year: i32) -> (c: Calendar)
    ensures
        c.wf(),
        c.year == year,
        forall|mo: Month, d: int|
            #[trigger] c.at(mo.spec_number(), d) == add_emissions(
                Seq::empty(),
                month_emissions(doc.tables@, mo),
                d,
            ),
    {
    let ghost docv = doc.tables@;
    let mut c = Calendar::new(year);
    let mut mi: u8 = 1;
    while mi <= 12
        invariant
            1 <= mi <= 13,
            c.wf(),
            c.year == year,
            forall|mo: Month, d: int|
                mo.spec_number() < mi as int ==> #[trigger] c.at(mo.spec_number(), d)
                    == add_emissions(Seq::empty(), month_emissions(docv, mo), d),
            forall|mo: Month, d: int|
                mo.spec_number() >= mi as int ==> #[trigger] c.at(mo.spec_number(), d) == Seq::<
                    ReleaseView,
                >::empty(),
            docv == doc.tables@,
        decreases 13 - mi,
    {
        let month = Month::from_number(mi);
        let ghost pre = c;
        let ghost sel = selected_tables(docv, month);
        if mi == 10 {
            let own = find_tables(&doc.tables, month);
            let nov = find_tables(&doc.tables, Month::November);
            let ghost ownf = tables_with(docv, month);
            let ghost novf = tables_with(docv, Month::November);
            let ghost a = if ownf.len() == 1 {
                ownf
            } else {
                Seq::<WikiTable>::empty()
            };
            let ghost b = if novf.len() == 2 {
                seq![novf[0]]
            } else {
                Seq::<WikiTable>::empty()
            };
            if own.len() == 1 {
                process_table(&doc.tables[own[0]].rows, &mut c, month);
                proof {
                    assert(docv[own@[0] as int] == ownf[0]);
                    lemma_tables_emissions_single(ownf[0]);
                    assert(a =~= seq![ownf[0]]);
                }
            } else {
                proof {
                    assert(tables_emissions(a) =~= Seq::<(u8, ReleaseView)>::empty());
                }
            }
            if nov.len() == 2 {
                process_table(&doc.tables[nov[0]].rows, &mut c, month);
                proof {
                    assert(docv[nov@[0] as int] == novf[0]);
                    lemma_tables_emissions_single(novf[0]);
                    assert(b =~= seq![novf[0]]);
                }
            } else {
                proof {
                    assert(tables_emissions(b) =~= Seq::<(u8, ReleaseView)>::empty());
                }
            }
            proof {
                assert(sel == a + b);
                lemma_tables_emissions_concat(a, b);
                assert forall|d: int| c.at(month.spec_number(), d) == add_emissions(
                    Seq::empty(),
                    tables_emissions(sel),
                    d,
                ) by {
                    lemma_add_emissions_concat(
                        Seq::empty(),
                        tables_emissions(a),
                        tables_emissions(b),
                        d,
                    );
                    if a.len() == 0 {
                        assert(add_emissions(
                            Seq::<ReleaseView>::empty(),
                            tables_emissions(a),
                            d,
                        ) == Seq::<ReleaseView>::empty());
                    }
                    if b.len() == 0 {
                        assert(tables_emissions(b).len() == 0);
                    }
                }
            }
        } else if mi == 11 {
            let nov = find_tables(&doc.tables, month);
            let ghost novf = tables_with(docv, Month::November);
            if nov.len() == 2 {
                process_table(&doc.tables[nov[1]].rows, &mut c, month);
                proof {
                    assert(docv[nov@[1] as int] == novf[1]);
                    assert(sel =~= seq![novf[1]]);
                    lemma_tables_emissions_single(novf[1]);
                }
            } else if nov.len() == 1 {
                process_table(&doc.tables[nov[0]].rows, &mut c, month);
                proof {
                    assert(docv[nov@[0] as int] == novf[0]);
                    assert(sel =~= seq![novf[0]]);
                    lemma_tables_emissions_single(novf[0]);
                }
            } else {
                proof {
                    assert(sel =~= Seq::<WikiTable>::empty());
                    assert(tables_emissions(sel) =~= Seq::<(u8, ReleaseView)>::empty());
                }
            }
        } else {
            let own = find_tables(&doc.tables, month);
            let ghost ownf = tables_with(docv, month);
            if own.len() == 1 {
                process_table(&doc.tables[own[0]].rows, &mut c, month);
                proof {
                    assert(docv[own@[0] as int] == ownf[0]);
                    assert(sel =~= seq![ownf[0]]);
                    lemma_tables_emissions_single(ownf[0]);
                }
            } else {
                proof {
                    assert(sel =~= Seq::<WikiTable>::empty());
                    assert(tables_emissions(sel) =~= Seq::<(u8, ReleaseView)>::empty());
                }
            }
        }
        proof {
            assert forall|mo: Month, d: int|
                mo.spec_number() < mi + 1 implies #[trigger] c.at(mo.spec_number(), d)
                == add_emissions(Seq::empty(), month_emissions(docv, mo), d) by {
                if mo.spec_number() == mi as int {
                    assert(mo == month) by {
                        assert(mo.spec_number() == month.spec_number());
                    }
                } else {
                    assert(c.at(mo.spec_number(), d) == pre.at(mo.spec_number(), d));
                }
            }
            assert forall|mo: Month, d: int|
                mo.spec_number() >= mi + 1 implies #[trigger] c.at(mo.spec_number(), d) == Seq::<
                ReleaseView,
            >::empty() by {
                assert(c.at(mo.spec_number(), d) == pre.at(mo.spec_number(), d));
            }
        }
        mi = mi + 1;
    }
    c
}

/// Fetches the year's document through `client` and builds the calendar
/// from it.
pub fn scrape<C: crate::client::Client>(client: &C, year: i32) -> (r: Result<Calendar, Error>)
    ensures
        match r {
            Ok(c) => c.wf() && c.year == year,
            Err(e) => true,
        },
{
    match client.fetch_document(year) {
        Ok(doc) => Ok(extract_calendar(&doc, year)),
        Err(e) => Err(e),
    }
}

} // verus!
