use vstd::prelude::*;

use crate::database::{has_epic, snapshot_of, spec_upsert, Database, DatabaseError, EpicRowView};
use crate::models::{IssueLogView, JiraIssue, JiraIssueView};
use crate::pagination::issue_views;
use crate::renderer::push_char;

verus! {

/// The keys of a sequence of fetched records.
pub open spec fn issue_keys(records: Seq<JiraIssue>) -> Seq<Seq<char>> {
    records.map_values(|r: JiraIssue| r.key@)
}

/// Keys joined with commas; no keys give the empty text.
pub open spec fn spec_join_keys(keys: Seq<Seq<char>>) -> Seq<char>
    decreases keys.len(),
{
    if keys.len() == 0 {
        Seq::empty()
    } else if keys.len() == 1 {
        keys[0]
    } else {
        spec_join_keys(keys.drop_last()) + seq![','] + keys.last()
    }
}

/// The parent table after a cycle upserts every fetched parent, in order.
pub open spec fn spec_ingest_epics(
    epics: Seq<EpicRowView>,
    records: Seq<JiraIssueView>,
    now: Seq<char>,
) -> Seq<EpicRowView>
    decreases records.len(),
{
    if records.len() == 0 {
        epics
    } else {
        spec_ingest_epics(
            spec_upsert(epics, records[0].key, records[0].fields.summary, now),
            records.skip(1),
            now,
        )
    }
}

/// The snapshot log after a cycle appends every fetched child record, in
/// order, against a fixed parent table — and whether every one was written. A
/// record without a resolvable parent stops the cycle's remaining writes.
pub open spec fn spec_ingest_issues(
    epics: Seq<EpicRowView>,
    issues: Seq<IssueLogView>,
    records: Seq<JiraIssueView>,
    now: Seq<char>,
) -> (bool, Seq<IssueLogView>)
    decreases records.len(),
{
    if records.len() == 0 {
        (true, issues)
    } else {
        match records[0].fields.epic_key {
            Option::Some(k) => if has_epic(epics, k) {
                spec_ingest_issues(
                    epics,
                    issues.push(snapshot_of(records[0], k, now)),
                    records.skip(1),
                    now,
                )
            } else {
                (false, issues)
            },
            Option::None => (false, issues),
        }
    }
}

/// The comma-joined list of the fetched parents' keys, for scoping the child
/// query; no parents give the empty text (a valid, probably-empty filter).
pub fn epics_csv(epics: &Vec<JiraIssue>) -> (r: String)
    ensures
        r@ == spec_join_keys(issue_keys(epics@)),
{
    let ghost keys = issue_keys(epics@);
    let mut out = String::new();
    let mut i: usize = 0;
    proof {
        assert(out@ =~= spec_join_keys(keys.take(0)));
    }
    while i < epics.len()
        invariant
            i <= epics@.len(),
            keys == issue_keys(epics@),
            out@ == spec_join_keys(keys.take(i as int)),
        decreases epics@.len() - i,
    {
        if i > 0 {
            push_char(&mut out, ',');
        }
        out.append(epics[i].key.as_str());
        proof {
            let s1 = keys.take(i as int + 1);
            assert(s1.drop_last() =~= keys.take(i as int));
            assert(s1.last() == keys[i as int]);
            if i == 0 {
                assert(out@ =~= spec_join_keys(s1));
            } else {
                assert(out@ =~= spec_join_keys(s1.drop_last()) + seq![','] + s1.last());
            }
        }
        i += 1;
    }
    proof {
        assert(keys.take(epics@.len() as int) =~= keys);
    }
    out
}

/// One collection cycle's writes: every fetched parent is upserted, then
/// every fetched child record is appended as a new snapshot, all stamped with
/// one collection timestamp. The cycle fails — leaving the already-written
/// rows in place and writing no further ones — exactly when some child record
/// has no resolvable parent.
#[verifier::loop_isolation(false)]
pub fn collect_data(
    database: &mut Database,
    epics: &Vec<JiraIssue>,
    issues: &Vec<JiraIssue>,
    now: &String,
) -> (r: Result<(), DatabaseError>)
    requires
        old(database).wf(),
        forall|i: int|
            0 <= i < issues@.len() ==> ((#[trigger] issues@[i]).fields.time_estimate matches
                Option::Some(v) ==> v <= i64::MAX),
        forall|i: int|
            0 <= i < issues@.len() ==> ((#[trigger] issues@[i]).fields.time_spent matches
                Option::Some(v) ==> v <= i64::MAX),
    ensures
        final(database).wf(),
        final(database).epics_view() == spec_ingest_epics(
            old(database).epics_view(),
            issue_views(epics@),
            now@,
        ),
        final(database).issues_view() == spec_ingest_issues(
            final(database).epics_view(),
            old(database).issues_view(),
            issue_views(issues@),
            now@,
        ).1,
        r is Ok <==> spec_ingest_issues(
            final(database).epics_view(),
            old(database).issues_view(),
            issue_views(issues@),
            now@,
        ).0,
        r matches Err(e) ==> e matches DatabaseError::Integrity(_),
{
    let ghost epics0 = old(database).epics_view();
    let ghost issues0 = old(database).issues_view();
    let ghost eviews = issue_views(epics@);

    let mut i: usize = 0;
    proof {
        assert(eviews.skip(0) =~= eviews);
    }
    while i < epics.len()
        invariant
            i <= epics@.len(),
            eviews == issue_views(epics@),
            database.wf(),
            database.issues_view() == issues0,
            spec_ingest_epics(database.epics_view(), eviews.skip(i as int), now@)
                == spec_ingest_epics(epics0, eviews, now@),
        decreases epics@.len() - i,
    {
        let ghost before = database.epics_view();
        database.insert_epic(&epics[i], now);
        proof {
            let rest = eviews.skip(i as int);
            assert(rest[0] == eviews[i as int]);
            assert(rest.skip(1) =~= eviews.skip(i as int + 1));
            assert(database.epics_view() == spec_upsert(
                before,
                rest[0].key,
                rest[0].fields.summary,
                now@,
            ));
        }
        i += 1;
    }
    proof {
        assert(eviews.skip(epics@.len() as int) =~= Seq::<JiraIssueView>::empty());
    }
    let ghost epics_after = database.epics_view();
    proof {
        assert(epics_after == spec_ingest_epics(epics0, eviews, now@));
    }

    let ghost iviews = issue_views(issues@);
    let mut j: usize = 0;
    proof {
        assert(iviews.skip(0) =~= iviews);
    }
    while j < issues.len()
        invariant
            j <= issues@.len(),
            iviews == issue_views(issues@),
            database.wf(),
            database.epics_view() == epics_after,
            epics_after == spec_ingest_epics(epics0, eviews, now@),
            forall|q: int|
                0 <= q < issues@.len() ==> ((#[trigger] issues@[q]).fields.time_estimate matches
                    Option::Some(v) ==> v <= i64::MAX),
            forall|q: int|
                0 <= q < issues@.len() ==> ((#[trigger] issues@[q]).fields.time_spent matches
                    Option::Some(v) ==> v <= i64::MAX),
            spec_ingest_issues(epics_after, database.issues_view(), iviews.skip(j as int), now@)
                == spec_ingest_issues(epics_after, issues0, iviews, now@),
        decreases issues@.len() - j,
    {
        let ghost before = database.issues_view();
        let ghost rest = iviews.skip(j as int);
        proof {
            assert(rest[0] == iviews[j as int]);
            assert(rest.skip(1) =~= iviews.skip(j as int + 1));
        }
        match database.insert_issue(&issues[j], now) {
            Result::Ok(()) => {
                proof {
                    match rest[0].fields.epic_key {
                        Option::Some(k) => {
                            assert(database.issues_view() == before.push(
                                snapshot_of(rest[0], k, now@),
                            ));
                        },
                        Option::None => {
                            assert(false);
                        },
                    }
                }
            },
            Result::Err(e) => {
                proof {
                    assert(spec_ingest_issues(epics_after, before, rest, now@) == (
                        false,
                        before,
                    ));
                }
                return Result::Err(e);
            },
        }
        j += 1;
    }
    proof {
        assert(iviews.skip(issues@.len() as int) =~= Seq::<JiraIssueView>::empty());
    }
    Result::Ok(())
}


/// Law: a cycle's snapshot writes only append — the log afterwards is the log
/// before, followed by the cycle's new rows. Together with the fresh-history
/// law of the store, the history read back for a key first seen in a cycle is
/// exactly what that cycle wrote for it.
pub proof fn lemma_ingest_appends(
    epics: Seq<EpicRowView>,
    issues: Seq<IssueLogView>,
    records: Seq<JiraIssueView>,
    now: Seq<char>,
) -> (appended: Seq<IssueLogView>)
    ensures
        spec_ingest_issues(epics, issues, records, now).1 == issues + appended,
    decreases records.len(),
{
    if records.len() == 0 {
        assert(issues + Seq::<IssueLogView>::empty() =~= issues);
        Seq::empty()
    } else {
        match records[0].fields.epic_key {
            Option::Some(k) => {
                if has_epic(epics, k) {
                    let snap = snapshot_of(records[0], k, now);
                    let tail = lemma_ingest_appends(
                        epics,
                        issues.push(snap),
                        records.skip(1),
                        now,
                    );
                    assert(issues.push(snap) + tail =~= issues + (seq![snap] + tail));
                    seq![snap] + tail
                } else {
                    assert(issues + Seq::<IssueLogView>::empty() =~= issues);
                    Seq::empty()
                }
            },
            Option::None => {
                assert(issues + Seq::<IssueLogView>::empty() =~= issues);
                Seq::empty()
            },
        }
    }
}

} // verus!
