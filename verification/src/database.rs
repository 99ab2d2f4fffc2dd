use vstd::prelude::*;

use crate::models::{Epic, EpicView, IssueLog, IssueLogView, JiraIssue, JiraIssueView};
use crate::ordering::{lex_le, lex_lt, lemma_lex_comparison, lemma_lex_refl, lemma_lex_transitive, str_le};

verus! {

/// Failures of the historical store.
#[derive(Debug)]
pub enum DatabaseError {
    /// A snapshot referenced a parent key that the store does not hold; the
    /// payload is the unresolved parent key (empty when the record carried no
    /// parent link at all).
    Integrity(String),
}

/// One stored parent row: key, display summary, last-update timestamp.
pub struct EpicRow {
    pub key: String,
    pub summary: String,
    pub updated_at: String,
}

/// Mathematical image of an [`EpicRow`].
pub struct EpicRowView {
    pub key: Seq<char>,
    pub summary: Seq<char>,
    pub updated_at: Seq<char>,
}

impl View for EpicRow {
    type V = EpicRowView;

    open spec fn view(&self) -> EpicRowView {
        EpicRowView { key: self.key@, summary: self.summary@, updated_at: self.updated_at@ }
    }
}

impl Clone for EpicRow {
    fn clone(&self) -> (r: Self)
        ensures
            r@ == self@,
    {
        EpicRow {
            key: self.key.clone(),
            summary: self.summary.clone(),
            updated_at: self.updated_at.clone(),
        }
    }
}

/// The views of a sequence of parent rows.
pub open spec fn epic_rows_view(rows: Seq<EpicRow>) -> Seq<EpicRowView> {
    rows.map_values(|e: EpicRow| e@)
}

/// The views of a sequence of snapshot rows.
pub open spec fn issue_rows_view(rows: Seq<IssueLog>) -> Seq<IssueLogView> {
    rows.map_values(|l: IssueLog| l@)
}

/// Whether saved rows form a well-formed store: parent keys unique, every
/// snapshot referencing one of the parents.
pub open spec fn restorable(epics: Seq<EpicRowView>, issues: Seq<IssueLogView>) -> bool {
    &&& forall|i: int, j: int| 0 <= i < j < epics.len() ==> epics[i].key != epics[j].key
    &&& forall|i: int| 0 <= i < issues.len() ==> has_epic(epics, (#[trigger] issues[i]).epic_key)
}

/// The historical store: an upserted parent table beside an append-only
/// snapshot log. The collector is its only writer; the render path only reads.
pub struct Database {
    epics: Vec<EpicRow>,
    issues: Vec<IssueLog>,
}

/// Whether some parent row carries the given key.
pub open spec fn has_epic(epics: Seq<EpicRowView>, key: Seq<char>) -> bool {
    exists|i: int| 0 <= i < epics.len() && epics[i].key == key
}

/// Whether some snapshot row carries the given child key.
pub open spec fn has_key(rows: Seq<IssueLogView>, key: Seq<char>) -> bool {
    exists|i: int| 0 <= i < rows.len() && rows[i].key == key
}

/// Index of the first snapshot row with the given key (meaningful only when
/// [`has_key`] holds).
pub open spec fn first_key_index(rows: Seq<IssueLogView>, key: Seq<char>) -> int
    decreases rows.len(),
{
    if rows.len() == 0 {
        0
    } else if rows[0].key == key {
        0
    } else {
        1 + first_key_index(rows.skip(1), key)
    }
}

/// The parent table after an upsert: the row of an existing key is overwritten
/// in place, an unknown key is appended at the end.
pub open spec fn spec_upsert(
    rows: Seq<EpicRowView>,
    key: Seq<char>,
    summary: Seq<char>,
    updated_at: Seq<char>,
) -> Seq<EpicRowView>
    decreases rows.len(),
{
    let row = EpicRowView { key, summary, updated_at };
    if rows.len() == 0 {
        seq![row]
    } else if rows[0].key == key {
        seq![row] + rows.skip(1)
    } else {
        seq![rows[0]] + spec_upsert(rows.skip(1), key, summary, updated_at)
    }
}

/// The first parent row with the given key, if any.
pub open spec fn epic_entry(rows: Seq<EpicRowView>, key: Seq<char>) -> Option<EpicRowView>
    decreases rows.len(),
{
    if rows.len() == 0 {
        Option::None
    } else if rows[0].key == key {
        Option::Some(rows[0])
    } else {
        epic_entry(rows.skip(1), key)
    }
}

/// The snapshot row an ingested record becomes: absent effort values default
/// to zero, an absent assignee to the explicit "unassigned" sentinel.
pub open spec fn snapshot_of(
    issue: JiraIssueView,
    parent_key: Seq<char>,
    updated_at: Seq<char>,
) -> IssueLogView {
    IssueLogView {
        key: issue.key,
        summary: issue.fields.summary,
        epic_key: parent_key,
        time_estimate: (match issue.fields.time_estimate {
            Option::Some(v) => v,
            Option::None => 0,
        }) as i64,
        time_spent: (match issue.fields.time_spent {
            Option::Some(v) => v,
            Option::None => 0,
        }) as i64,
        updated_at,
        assignee: match issue.fields.assignee {
            Option::Some(u) => u.name,
            Option::None => "unassigned"@,
        },
    }
}

/// The predicate selecting the snapshots of one child key.
pub open spec fn key_filter(key: Seq<char>) -> spec_fn(IssueLogView) -> bool {
    |l: IssueLogView| l.key == key
}

/// The parent key a record asks to be filed under (empty when absent).
pub open spec fn requested_parent(issue: JiraIssueView) -> Seq<char> {
    match issue.fields.epic_key {
        Option::Some(k) => k,
        Option::None => Seq::empty(),
    }
}

/// The latest-per-key table after one more snapshot arrives: a new key is
/// appended; a known key keeps its first-seen slot and is replaced only by a
/// strictly greater timestamp (ties keep the earlier insertion).
pub open spec fn upd_latest(acc: Seq<IssueLogView>, row: IssueLogView) -> Seq<IssueLogView> {
    if has_key(acc, row.key) {
        let i = first_key_index(acc, row.key);
        if lex_lt(acc[i].updated_at, row.updated_at) {
            acc.update(i, row)
        } else {
            acc
        }
    } else {
        acc.push(row)
    }
}

/// For every distinct child key, the single representative snapshot: the one
/// with the greatest timestamp, earliest insertion winning ties; keys appear
/// in order of first insertion.
pub open spec fn spec_latest(rows: Seq<IssueLogView>) -> Seq<IssueLogView>
    decreases rows.len(),
{
    if rows.len() == 0 {
        Seq::empty()
    } else {
        upd_latest(spec_latest(rows.drop_last()), rows.last())
    }
}

impl Database {
    /// The parent table, as a mathematical sequence of rows.
    pub closed spec fn epics_view(&self) -> Seq<EpicRowView> {
        self.epics@.map_values(|r: EpicRow| r@)
    }

    /// The snapshot log, as a mathematical sequence of rows.
    pub closed spec fn issues_view(&self) -> Seq<IssueLogView> {
        self.issues@.map_values(|r: IssueLog| r@)
    }

    /// Store invariant: parent keys are unique, and every snapshot references
    /// a stored parent (referential integrity).
    pub open spec fn wf(&self) -> bool {
        &&& forall|i: int, j: int|
            0 <= i < j < self.epics_view().len() ==> self.epics_view()[i].key
                != self.epics_view()[j].key
        &&& forall|i: int|
            0 <= i < self.issues_view().len() ==> has_epic(
                self.epics_view(),
                self.issues_view()[i].epic_key,
            )
    }

    /// An empty store.
    pub fn new() -> (r: Self)
        ensures
            r.wf(),
            r.epics_view() == Seq::<EpicRowView>::empty(),
            r.issues_view() == Seq::<IssueLogView>::empty(),
    {
        let r = Database { epics: Vec::new(), issues: Vec::new() };
        proof {
            assert(r.epics_view() =~= Seq::<EpicRowView>::empty());
            assert(r.issues_view() =~= Seq::<IssueLogView>::empty());
        }
        r
    }

    fn find_epic_index(&self, key: &String) -> (r: Option<usize>)
        ensures
            match r {
                Option::Some(i) => i < self.epics_view().len() && self.epics_view()[i as int].key
                    == key@ && forall|j: int| 0 <= j < i ==> self.epics_view()[j].key != key@,
                Option::None => !has_epic(self.epics_view(), key@),
            },
    {
        let mut i: usize = 0;
        while i < self.epics.len()
            invariant
                i <= self.epics.len(),
                forall|j: int| 0 <= j < i ==> self.epics_view()[j].key != key@,
            decreases self.epics.len() - i,
        {
            if self.epics[i].key == *key {
                return Option::Some(i);
            }
            i += 1;
        }
        Option::None
    }

    /// Whether the store holds a parent with the given key.
    pub fn contains_epic(&self, key: &String) -> (r: bool)
        ensures
            r == has_epic(self.epics_view(), key@),
    {
        self.find_epic_index(key).is_some()
    }

    /// Idempotent parent write: a repeated key overwrites summary and
    /// timestamp in place and leaves everything else — including the snapshot
    /// log — untouched; a new key is appended.
    pub fn insert_epic(&mut self, epic: &JiraIssue, updated_at: &String)
        requires
            old(self).wf(),
        ensures
            final(self).wf(),
            final(self).issues_view() == old(self).issues_view(),
            final(self).epics_view() == spec_upsert(
                old(self).epics_view(),
                epic.key@,
                epic.fields.summary@,
                updated_at@,
            ),
    {
        let row = EpicRow {
            key: epic.key.clone(),
            summary: epic.fields.summary.clone(),
            updated_at: updated_at.clone(),
        };
        match self.find_epic_index(&epic.key) {
            Option::Some(i) => {
                proof {
                    lemma_upsert_at_index(
                        self.epics_view(),
                        i as int,
                        epic.key@,
                        epic.fields.summary@,
                        updated_at@,
                    );
                }
                self.epics.remove(i);
                self.epics.insert(i, row);
                proof {
                    assert(self.epics_view() =~= spec_upsert(
                        old(self).epics_view(),
                        epic.key@,
                        epic.fields.summary@,
                        updated_at@,
                    ));
                    assert(self.issues_view() =~= old(self).issues_view());
                }
            },
            Option::None => {
                proof {
                    lemma_upsert_absent(
                        self.epics_view(),
                        epic.key@,
                        epic.fields.summary@,
                        updated_at@,
                    );
                }
                self.epics.push(row);
                proof {
                    assert(self.epics_view() =~= spec_upsert(
                        old(self).epics_view(),
                        epic.key@,
                        epic.fields.summary@,
                        updated_at@,
                    ));
                    assert(self.issues_view() =~= old(self).issues_view());
                }
            },
        }
        proof {
            lemma_upsert_preserves_keys(
                old(self).epics_view(),
                epic.key@,
                epic.fields.summary@,
                updated_at@,
            );
        }
    }

    /// Append-only snapshot write. A record whose parent link is absent or
    /// does not reference a stored parent fails with an integrity error and
    /// writes nothing; otherwise exactly one new row — with the documented
    /// defaults filled in — is appended, and no existing row changes.
    pub fn insert_issue(&mut self, issue: &JiraIssue, updated_at: &String) -> (r: Result<
        (),
        DatabaseError,
    >)
        requires
            old(self).wf(),
            issue.fields.time_estimate matches Option::Some(v) ==> v <= i64::MAX,
            issue.fields.time_spent matches Option::Some(v) ==> v <= i64::MAX,
        ensures
            final(self).wf(),
            final(self).epics_view() == old(self).epics_view(),
            r is Ok <==> (issue@.fields.epic_key matches Option::Some(k) && has_epic(
                old(self).epics_view(),
                k,
            )),
            r is Ok ==> final(self).issues_view() == old(self).issues_view().push(
                snapshot_of(issue@, requested_parent(issue@), updated_at@),
            ),
            r is Err ==> final(self).issues_view() == old(self).issues_view(),
            r matches Err(e) ==> (e matches DatabaseError::Integrity(m) && m@ == requested_parent(
                issue@,
            )),
    {
        let parent_key = match &issue.fields.epic_key {
            Option::Some(k) => k.clone(),
            Option::None => {
                return Result::Err(DatabaseError::Integrity(String::new()));
            },
        };
        if !self.contains_epic(&parent_key) {
            return Result::Err(DatabaseError::Integrity(parent_key));
        }
        let time_estimate: i64 = match issue.fields.time_estimate {
            Option::Some(v) => v as i64,
            Option::None => 0,
        };
        let time_spent: i64 = match issue.fields.time_spent {
            Option::Some(v) => v as i64,
            Option::None => 0,
        };
        let assignee: String = match &issue.fields.assignee {
            Option::Some(u) => u.name.clone(),
            Option::None => "unassigned".to_owned(),
        };
        let row = IssueLog {
            key: issue.key.clone(),
            summary: issue.fields.summary.clone(),
            epic_key: parent_key,
            time_estimate,
            time_spent,
            updated_at: updated_at.clone(),
            assignee,
        };
        self.issues.push(row);
        proof {
            assert(self.issues_view() =~= old(self).issues_view().push(
                snapshot_of(issue@, requested_parent(issue@), updated_at@),
            ));
        }
        Result::Ok(())
    }

    /// The full history of one child key: every snapshot carrying that key,
    /// in insertion order (callers sort when they need chronological order).
    pub fn get_logs_of_issue(&self, issue_key: &String) -> (r: Vec<IssueLog>)
        ensures
            r@.map_values(|l: IssueLog| l@) == self.issues_view().filter(key_filter(issue_key@)),
    {
        let mut out: Vec<IssueLog> = Vec::new();
        let mut i: usize = 0;
        while i < self.issues.len()
            invariant
                i <= self.issues.len(),
                out@.map_values(|l: IssueLog| l@) == self.issues_view().take(i as int).filter(
                    key_filter(issue_key@),
                ),
            decreases self.issues.len() - i,
        {
            let ghost prev = self.issues_view().take(i as int);
            if self.issues[i].key == *issue_key {
                out.push(self.issues[i].clone());
            }
            proof {
                reveal(Seq::filter);
                let s1 = self.issues_view().take(i as int + 1);
                assert(s1.drop_last() =~= prev);
                assert(s1.last() == self.issues_view()[i as int]);
                if self.issues_view()[i as int].key == issue_key@ {
                    assert(s1.filter(key_filter(issue_key@)) == prev.filter(
                        key_filter(issue_key@),
                    ).push(s1.last()));
                    assert(out@.map_values(|l: IssueLog| l@) =~= prev.filter(
                        key_filter(issue_key@),
                    ).push(s1.last()));
                } else {
                    assert(s1.filter(key_filter(issue_key@)) == prev.filter(key_filter(issue_key@)));
                }
            }
            i += 1;
        }
        proof {
            assert(self.issues_view().take(self.issues@.len() as int) =~= self.issues_view());
        }
        out
    }
}

/// An upsert of a key that sits at index `n` (and nowhere earlier) overwrites
/// exactly that slot.
proof fn lemma_upsert_at_index(
    rows: Seq<EpicRowView>,
    n: int,
    key: Seq<char>,
    summary: Seq<char>,
    updated_at: Seq<char>,
)
    requires
        0 <= n < rows.len(),
        rows[n].key == key,
        forall|j: int| 0 <= j < n ==> rows[j].key != key,
    ensures
        spec_upsert(rows, key, summary, updated_at) == rows.update(
            n,
            EpicRowView { key, summary, updated_at },
        ),
    decreases n,
{
    let row = EpicRowView { key, summary, updated_at };
    if n == 0 {
        assert(spec_upsert(rows, key, summary, updated_at) =~= rows.update(0, row));
    } else {
        assert(rows[0].key != key);
        lemma_upsert_at_index(rows.skip(1), n - 1, key, summary, updated_at);
        assert(spec_upsert(rows, key, summary, updated_at) =~= rows.update(n, row));
    }
}

/// An upsert of an unknown key appends its row at the end.
proof fn lemma_upsert_absent(
    rows: Seq<EpicRowView>,
    key: Seq<char>,
    summary: Seq<char>,
    updated_at: Seq<char>,
)
    requires
        !has_epic(rows, key),
    ensures
        spec_upsert(rows, key, summary, updated_at) == rows.push(
            EpicRowView { key, summary, updated_at },
        ),
    decreases rows.len(),
{
    let row = EpicRowView { key, summary, updated_at };
    if rows.len() == 0 {
        assert(spec_upsert(rows, key, summary, updated_at) =~= rows.push(row));
    } else {
        assert(rows[0].key != key);
        assert(!has_epic(rows.skip(1), key)) by {
            assert(forall|i: int|
                0 <= i < rows.skip(1).len() ==> rows.skip(1)[i] == rows[i + 1]);
        }
        lemma_upsert_absent(rows.skip(1), key, summary, updated_at);
        assert(spec_upsert(rows, key, summary, updated_at) =~= rows.push(row));
    }
}

/// When the upserted key is already stored, an upsert keeps the length and
/// every slot's key.
proof fn lemma_upsert_keys_pointwise(
    rows: Seq<EpicRowView>,
    key: Seq<char>,
    summary: Seq<char>,
    updated_at: Seq<char>,
)
    requires
        has_epic(rows, key),
    ensures
        spec_upsert(rows, key, summary, updated_at).len() == rows.len(),
        forall|i: int|
            0 <= i < rows.len() ==> spec_upsert(rows, key, summary, updated_at)[i].key
                == rows[i].key,
    decreases rows.len(),
{
    let row = EpicRowView { key, summary, updated_at };
    let after = spec_upsert(rows, key, summary, updated_at);
    if rows[0].key == key {
        assert(after =~= seq![row] + rows.skip(1));
        assert forall|i: int| 0 <= i < rows.len() implies after[i].key == rows[i].key by {
            if i > 0 {
                assert(after[i] == rows.skip(1)[i - 1]);
                assert(rows.skip(1)[i - 1] == rows[i]);
            }
        }
    } else {
        assert(has_epic(rows.skip(1), key)) by {
            let w = choose|w: int| 0 <= w < rows.len() && rows[w].key == key;
            assert(w != 0);
            assert(rows.skip(1)[w - 1].key == key);
        }
        lemma_upsert_keys_pointwise(rows.skip(1), key, summary, updated_at);
        let tail = spec_upsert(rows.skip(1), key, summary, updated_at);
        assert(after =~= seq![rows[0]] + tail);
        assert forall|i: int| 0 <= i < rows.len() implies after[i].key == rows[i].key by {
            if i > 0 {
                assert(after[i] == tail[i - 1]);
                assert(tail[i - 1].key == rows.skip(1)[i - 1].key);
                assert(rows.skip(1)[i - 1] == rows[i]);
            }
        }
    }
}

/// An upsert only adds or overwrites the upserted key: the set of stored keys
/// gains that key and loses none.
proof fn lemma_upsert_preserves_keys(
    rows: Seq<EpicRowView>,
    key: Seq<char>,
    summary: Seq<char>,
    updated_at: Seq<char>,
)
    ensures
        forall|k: Seq<char>|
            has_epic(rows, k) || k == key <==> has_epic(
                spec_upsert(rows, key, summary, updated_at),
                k,
            ),
{
    let row = EpicRowView { key, summary, updated_at };
    let after = spec_upsert(rows, key, summary, updated_at);
    if has_epic(rows, key) {
        lemma_upsert_keys_pointwise(rows, key, summary, updated_at);
        assert forall|k: Seq<char>| has_epic(rows, k) || k == key implies has_epic(after, k) by {
            if k == key {
                let w = choose|w: int| 0 <= w < rows.len() && rows[w].key == key;
                assert(after[w].key == k);
            } else {
                let w = choose|w: int| 0 <= w < rows.len() && rows[w].key == k;
                assert(after[w].key == k);
            }
        }
        assert forall|k: Seq<char>| has_epic(after, k) implies has_epic(rows, k) || k == key by {
            let w = choose|w: int| 0 <= w < after.len() && after[w].key == k;
            assert(rows[w].key == k);
        }
    } else {
        lemma_upsert_absent(rows, key, summary, updated_at);
        assert(after =~= rows.push(row));
        assert forall|k: Seq<char>| has_epic(rows, k) || k == key implies has_epic(after, k) by {
            if k == key {
                assert(after[rows.len() as int].key == k);
            } else {
                let w = choose|w: int| 0 <= w < rows.len() && rows[w].key == k;
                assert(after[w].key == k);
            }
        }
        assert forall|k: Seq<char>| has_epic(after, k) implies has_epic(rows, k) || k == key by {
            let w = choose|w: int| 0 <= w < after.len() && after[w].key == k;
            if w < rows.len() {
                assert(rows[w].key == k);
            }
        }
    }
}

/// Law: for any sequence of parent upserts with one key, the stored summary
/// and timestamp for that key are exactly those of the last call — a later
/// upsert fully overrides earlier ones, and entries of other keys are
/// untouched.
pub proof fn lemma_upsert_last_wins(
    rows: Seq<EpicRowView>,
    key: Seq<char>,
    summary: Seq<char>,
    updated_at: Seq<char>,
)
    ensures
        epic_entry(spec_upsert(rows, key, summary, updated_at), key) == Option::Some(
            EpicRowView { key, summary, updated_at },
        ),
        forall|k: Seq<char>|
            k != key ==> epic_entry(spec_upsert(rows, key, summary, updated_at), k) == epic_entry(
                rows,
                k,
            ),
    decreases rows.len(),
{
    let row = EpicRowView { key, summary, updated_at };
    let after = spec_upsert(rows, key, summary, updated_at);
    if rows.len() == 0 {
        assert(after =~= seq![row]);
        assert(after.skip(1) =~= Seq::<EpicRowView>::empty());
        assert forall|k: Seq<char>| k != key implies epic_entry(after, k) == epic_entry(
            rows,
            k,
        ) by {
            assert(epic_entry(after, k) == epic_entry(after.skip(1), k));
        }
    } else if rows[0].key == key {
        assert(after =~= seq![row] + rows.skip(1));
        assert(after[0] == row);
        assert(after.skip(1) =~= rows.skip(1));
        assert forall|k: Seq<char>| k != key implies epic_entry(after, k) == epic_entry(
            rows,
            k,
        ) by {
            assert(epic_entry(after, k) == epic_entry(after.skip(1), k));
            assert(epic_entry(rows, k) == epic_entry(rows.skip(1), k));
        }
    } else {
        lemma_upsert_last_wins(rows.skip(1), key, summary, updated_at);
        assert(after =~= seq![rows[0]] + spec_upsert(rows.skip(1), key, summary, updated_at));
        assert(after[0] == rows[0]);
        assert(after.skip(1) =~= spec_upsert(rows.skip(1), key, summary, updated_at));
        assert(epic_entry(after, key) == epic_entry(after.skip(1), key));
        assert forall|k: Seq<char>| k != key implies epic_entry(after, k) == epic_entry(
            rows,
            k,
        ) by {
            if k == rows[0].key {
                assert(epic_entry(after, k) == Option::Some(after[0]));
                assert(epic_entry(rows, k) == Option::Some(rows[0]));
            } else {
                assert(epic_entry(after, k) == epic_entry(after.skip(1), k));
                assert(epic_entry(rows, k) == epic_entry(rows.skip(1), k));
            }
        }
    }
}


/// The first index holding a key sits where the search loop finds it.
proof fn lemma_first_key_index_at(rows: Seq<IssueLogView>, key: Seq<char>, n: int)
    requires
        0 <= n < rows.len(),
        rows[n].key == key,
        forall|q: int| 0 <= q < n ==> rows[q].key != key,
    ensures
        has_key(rows, key),
        first_key_index(rows, key) == n,
    decreases n,
{
    if n == 0 {
    } else {
        assert(rows[0].key != key);
        assert(forall|q: int| 0 <= q < n - 1 ==> rows.skip(1)[q] == rows[q + 1]);
        lemma_first_key_index_at(rows.skip(1), key, n - 1);
    }
}

/// The first index of a stored key is in range, holds that key, and nothing
/// before it does.
proof fn lemma_first_key_index_props(rows: Seq<IssueLogView>, key: Seq<char>)
    requires
        has_key(rows, key),
    ensures
        0 <= first_key_index(rows, key) < rows.len(),
        rows[first_key_index(rows, key)].key == key,
        forall|q: int| 0 <= q < first_key_index(rows, key) ==> rows[q].key != key,
    decreases rows.len(),
{
    if rows[0].key == key {
    } else {
        assert(has_key(rows.skip(1), key)) by {
            let w = choose|w: int| 0 <= w < rows.len() && rows[w].key == key;
            assert(rows.skip(1)[w - 1].key == key);
        }
        lemma_first_key_index_props(rows.skip(1), key);
        let f = first_key_index(rows.skip(1), key);
        assert(rows[f + 1] == rows.skip(1)[f]);
        assert(forall|q: int| 1 <= q < f + 1 ==> rows[q] == rows.skip(1)[q - 1]);
    }
}

fn find_log_index(out: &Vec<IssueLog>, key: &String) -> (r: Option<usize>)
    ensures
        match r {
            Option::Some(j) => (j as int) < out@.len() && out@[j as int]@.key == key@
                && forall|q: int| 0 <= q < j ==> (#[trigger] out@[q])@.key != key@,
            Option::None => !has_key(out@.map_values(|l: IssueLog| l@), key@),
        },
{
    let mut j: usize = 0;
    while j < out.len()
        invariant
            j <= out.len(),
            forall|q: int| 0 <= q < j ==> (#[trigger] out@[q])@.key != key@,
        decreases out.len() - j,
    {
        if out[j].key == *key {
            return Option::Some(j);
        }
        j += 1;
    }
    Option::None
}

impl Database {
    /// For every distinct child key, the single representative snapshot: the
    /// one with the greatest timestamp, earliest insertion winning ties, keys
    /// in order of first insertion.
    pub fn get_all_latest_issue_logs(&self) -> (r: Vec<IssueLog>)
        ensures
            r@.map_values(|l: IssueLog| l@) == spec_latest(self.issues_view()),
    {
        let mut out: Vec<IssueLog> = Vec::new();
        let mut i: usize = 0;
        while i < self.issues.len()
            invariant
                i <= self.issues.len(),
                out@.map_values(|l: IssueLog| l@) == spec_latest(
                    self.issues_view().take(i as int),
                ),
            decreases self.issues.len() - i,
        {
            let ghost acc = out@.map_values(|l: IssueLog| l@);
            let ghost rowv = self.issues_view()[i as int];
            proof {
                let s1 = self.issues_view().take(i as int + 1);
                assert(s1.drop_last() =~= self.issues_view().take(i as int));
                assert(s1.last() == rowv);
                assert(spec_latest(s1) == upd_latest(acc, rowv));
            }
            match find_log_index(&out, &self.issues[i].key) {
                Option::Some(j) => {
                    proof {
                        lemma_first_key_index_at(acc, rowv.key, j as int);
                    }
                    let replace = !str_le(
                        self.issues[i].updated_at.as_str(),
                        out[j].updated_at.as_str(),
                    );
                    proof {
                        lemma_lex_comparison(rowv.updated_at, acc[j as int].updated_at);
                    }
                    if replace {
                        let row = self.issues[i].clone();
                        out.remove(j);
                        out.insert(j, row);
                        proof {
                            assert(out@.map_values(|l: IssueLog| l@) =~= acc.update(
                                j as int,
                                rowv,
                            ));
                        }
                    }
                },
                Option::None => {
                    out.push(self.issues[i].clone());
                    proof {
                        assert(out@.map_values(|l: IssueLog| l@) =~= acc.push(rowv));
                    }
                },
            }
            i += 1;
        }
        proof {
            assert(self.issues_view().take(self.issues@.len() as int) =~= self.issues_view());
        }
        out
    }
}


/// Law: the latest-per-key table has exactly one row per distinct child key —
/// a key stands there exactly when some snapshot carries it, and never twice —
/// and each row is one of that key's own snapshots, with a timestamp no
/// earlier than any other snapshot of the same key.
pub proof fn lemma_latest_per_key(rows: Seq<IssueLogView>)
    ensures
        forall|k: Seq<char>| #[trigger] has_key(spec_latest(rows), k) <==> has_key(rows, k),
        forall|i: int, j: int|
            0 <= i < j < spec_latest(rows).len() ==> spec_latest(rows)[i].key != spec_latest(
                rows,
            )[j].key,
        forall|i: int| 0 <= i < spec_latest(rows).len() ==> rows.contains(spec_latest(rows)[i]),
        forall|i: int, j: int|
            0 <= i < spec_latest(rows).len() && 0 <= j < rows.len() && rows[j].key == spec_latest(
                rows,
            )[i].key ==> lex_le(rows[j].updated_at, spec_latest(rows)[i].updated_at),
    decreases rows.len(),
{
    if rows.len() == 0 {
    } else {
        let prev = rows.drop_last();
        let r = rows.last();
        let acc = spec_latest(prev);
        let res = spec_latest(rows);
        lemma_latest_per_key(prev);
        assert(rows =~= prev.push(r));
        assert(res == upd_latest(acc, r));
        assert(forall|j: int| 0 <= j < prev.len() ==> rows[j] == prev[j]);
        assert(forall|x: IssueLogView| prev.contains(x) ==> rows.contains(x)) by {
            assert forall|x: IssueLogView| prev.contains(x) implies rows.contains(x) by {
                let w = choose|w: int| 0 <= w < prev.len() && prev[w] == x;
                assert(rows[w] == x);
            }
        }
        if has_key(acc, r.key) {
            lemma_first_key_index_props(acc, r.key);
            let fi = first_key_index(acc, r.key);
            if lex_lt(acc[fi].updated_at, r.updated_at) {
                assert(res == acc.update(fi, r));
                assert(res.len() == acc.len());
                assert(forall|i: int| 0 <= i < acc.len() && i != fi ==> res[i] == acc[i]);
                assert(res[fi] == r);
                assert(forall|i: int| 0 <= i < acc.len() ==> res[i].key == acc[i].key);
                assert forall|k: Seq<char>| #[trigger] has_key(res, k) implies has_key(rows, k) by {
                    let w = choose|w: int| 0 <= w < res.len() && res[w].key == k;
                    assert(acc[w].key == k);
                    assert(has_key(acc, k));
                    assert(has_key(prev, k));
                    let v = choose|v: int| 0 <= v < prev.len() && prev[v].key == k;
                    assert(rows[v].key == k);
                }
                assert forall|k: Seq<char>| has_key(rows, k) implies #[trigger] has_key(res, k) by {
                    let w = choose|w: int| 0 <= w < rows.len() && rows[w].key == k;
                    if w < prev.len() {
                        assert(has_key(prev, k));
                        assert(has_key(acc, k));
                        let v = choose|v: int| 0 <= v < acc.len() && acc[v].key == k;
                        assert(res[v].key == k);
                    } else {
                        assert(res[fi].key == k);
                    }
                }
                assert forall|i: int| 0 <= i < res.len() implies rows.contains(res[i]) by {
                    if i == fi {
                        assert(rows[rows.len() - 1] == r);
                    } else {
                        assert(prev.contains(acc[i]));
                    }
                }
                assert forall|i: int, j: int|
                    0 <= i < res.len() && 0 <= j < rows.len() && rows[j].key
                        == res[i].key implies lex_le(rows[j].updated_at, res[i].updated_at) by {
                    if i == fi {
                        if j < prev.len() {
                            lemma_lex_transitive(
                                prev[j].updated_at,
                                acc[fi].updated_at,
                                r.updated_at,
                            );
                        } else {
                            lemma_lex_refl(r.updated_at);
                        }
                    } else {
                        if j == rows.len() - 1 {
                            assert(acc[i].key == r.key && acc[fi].key == r.key);
                            assert(false);
                        }
                    }
                }
            } else {
                assert(res == acc);
                lemma_lex_comparison(r.updated_at, acc[fi].updated_at);
                assert forall|k: Seq<char>| has_key(rows, k) implies #[trigger] has_key(res, k) by {
                    let w = choose|w: int| 0 <= w < rows.len() && rows[w].key == k;
                    if w < prev.len() {
                        assert(has_key(prev, k));
                    } else {
                        assert(acc[fi].key == k);
                    }
                }
                assert forall|k: Seq<char>| #[trigger] has_key(res, k) implies has_key(rows, k) by {
                    assert(has_key(prev, k));
                    let v = choose|v: int| 0 <= v < prev.len() && prev[v].key == k;
                    assert(rows[v].key == k);
                }
                assert forall|i: int, j: int|
                    0 <= i < res.len() && 0 <= j < rows.len() && rows[j].key
                        == res[i].key implies lex_le(rows[j].updated_at, res[i].updated_at) by {
                    if j == rows.len() - 1 {
                        assert(acc[i].key == r.key);
                        if i != fi {
                            assert(acc[i].key == acc[fi].key);
                            assert(false);
                        }
                        assert(lex_le(r.updated_at, acc[fi].updated_at));
                    }
                }
            }
        } else {
            assert(res == acc.push(r));
            assert forall|k: Seq<char>| has_key(rows, k) implies #[trigger] has_key(res, k) by {
                let w = choose|w: int| 0 <= w < rows.len() && rows[w].key == k;
                if w < prev.len() {
                    assert(has_key(prev, k));
                    assert(has_key(acc, k));
                    let v = choose|v: int| 0 <= v < acc.len() && acc[v].key == k;
                    assert(res[v].key == k);
                } else {
                    assert(res[res.len() - 1].key == k);
                }
            }
            assert forall|k: Seq<char>| #[trigger] has_key(res, k) implies has_key(rows, k) by {
                let w = choose|w: int| 0 <= w < res.len() && res[w].key == k;
                if w < acc.len() {
                    assert(has_key(acc, k));
                    assert(has_key(prev, k));
                    let v = choose|v: int| 0 <= v < prev.len() && prev[v].key == k;
                    assert(rows[v].key == k);
                } else {
                    assert(rows[rows.len() - 1].key == k);
                }
            }
            assert forall|i: int, j: int|
                0 <= i < j < res.len() implies res[i].key != res[j].key by {
                if j == res.len() - 1 {
                    assert(res[i] == acc[i]);
                    assert(!has_key(acc, r.key));
                    if res[i].key == r.key {
                        assert(acc[i].key == r.key);
                        assert(false);
                    }
                }
            }
            assert forall|i: int| 0 <= i < res.len() implies rows.contains(res[i]) by {
                if i < acc.len() {
                    assert(prev.contains(acc[i]));
                } else {
                    assert(rows[rows.len() - 1] == r);
                }
            }
            assert forall|i: int, j: int|
                0 <= i < res.len() && 0 <= j < rows.len() && rows[j].key == res[i].key implies
                lex_le(rows[j].updated_at, res[i].updated_at) by {
                if i < acc.len() {
                    if j == rows.len() - 1 {
                        assert(acc[i].key == r.key);
                        assert(false);
                    }
                } else {
                    if j < prev.len() {
                        assert(has_key(prev, r.key));
                        assert(has_key(acc, r.key));
                        assert(false);
                    } else {
                        lemma_lex_refl(r.updated_at);
                    }
                }
            }
        }
    }
}


/// The read model of the parent table: key and summary of each row.
pub open spec fn projected_epics(rows: Seq<EpicRowView>) -> Seq<EpicView> {
    rows.map_values(|row: EpicRowView| EpicView { key: row.key, summary: row.summary })
}

impl Database {
    /// All parent entities, ordered by key ascending: the same keys and
    /// summaries as the parent table, as a sorted rearrangement.
    pub fn get_epics(&self) -> (r: Vec<Epic>)
        ensures
            r@.map_values(|e: Epic| e@).to_multiset() == projected_epics(
                self.epics_view(),
            ).to_multiset(),
            forall|i: int, j: int| 0 <= i < j < r@.len() ==> lex_le(r@[i]@.key, r@[j]@.key),
    {
        broadcast use vstd::seq_lib::to_multiset_insert;
        broadcast use vstd::seq_lib::group_to_multiset_ensures;

        let ghost target = projected_epics(self.epics_view());
        let mut out: Vec<Epic> = Vec::new();
        let ghost mut g: Seq<EpicView> = Seq::empty();
        let mut i: usize = 0;
        proof {
            assert(g =~= out@.map_values(|e: Epic| e@));
            assert(projected_epics(self.epics_view().take(0)) =~= Seq::<EpicView>::empty());
        }
        while i < self.epics.len()
            invariant
                i <= self.epics.len(),
                g == out@.map_values(|e: Epic| e@),
                g.to_multiset() == projected_epics(
                    self.epics_view().take(i as int),
                ).to_multiset(),
                forall|q1: int, q2: int| 0 <= q1 < q2 < g.len() ==> lex_le(g[q1].key, g[q2].key),
            decreases self.epics.len() - i,
        {
            let e = Epic {
                key: self.epics[i].key.clone(),
                summary: self.epics[i].summary.clone(),
            };
            let mut j: usize = 0;
            loop
                invariant_except_break
                    j <= out.len(),
                    out@.len() == g.len(),
                    g == out@.map_values(|ep: Epic| ep@),
                    forall|q: int| 0 <= q < j ==> lex_le(g[q].key, e.key@),
                ensures
                    j <= out.len(),
                    out@.len() == g.len(),
                    g == out@.map_values(|ep: Epic| ep@),
                    forall|q: int| 0 <= q < j ==> lex_le(g[q].key, e.key@),
                    j < out.len() ==> !lex_le(g[j as int].key, e.key@),
                decreases out.len() - j,
            {
                if j == out.len() {
                    break;
                }
                if !str_le(out[j].key.as_str(), e.key.as_str()) {
                    break;
                }
                j += 1;
            }
            let ghost pre = g;
            out.insert(j, e);
            proof {
                g = pre.insert(j as int, e@);
                assert(g =~= out@.map_values(|ep: Epic| ep@));
                pre.insert_ensures(j as int, e@);
                assert forall|q1: int, q2: int|
                    0 <= q1 < q2 < g.len() implies lex_le(g[q1].key, g[q2].key) by {
                    let jj = j as int;
                    if q2 < jj {
                        assert(g[q1] == pre[q1] && g[q2] == pre[q2]);
                    } else if q1 < jj && q2 == jj {
                        assert(g[q1] == pre[q1] && g[q2] == e@);
                    } else if q1 < jj && q2 > jj {
                        assert(g[q1] == pre[q1] && g[q2] == pre[q2 - 1]);
                    } else if q1 == jj {
                        assert(g[q1] == e@ && g[q2] == pre[q2 - 1]);
                        lemma_lex_comparison(pre[jj].key, e.key@);
                        if q2 - 1 > jj {
                            lemma_lex_transitive(e.key@, pre[jj].key, pre[q2 - 1].key);
                        }
                    } else {
                        assert(g[q1] == pre[q1 - 1] && g[q2] == pre[q2 - 1]);
                    }
                }
                let prevt = projected_epics(self.epics_view().take(i as int));
                let s1 = projected_epics(self.epics_view().take(i as int + 1));
                assert(s1 =~= prevt.push(e@));
                vstd::seq_lib::to_multiset_insert::<EpicView>(pre, j as int, e@);
                vstd::seq_lib::to_multiset_build::<EpicView>(prevt, e@);
                assert(pre.insert(j as int, e@).to_multiset() == pre.to_multiset().insert(e@));
                assert(prevt.push(e@).to_multiset() =~= prevt.to_multiset().insert(e@));
            }
            i += 1;
        }
        proof {
            assert(self.epics_view().take(self.epics@.len() as int) =~= self.epics_view());
            assert forall|q1: int, q2: int|
                0 <= q1 < q2 < out@.len() implies lex_le(out@[q1]@.key, out@[q2]@.key) by {
                assert(out@[q1]@ == g[q1] && out@[q2]@ == g[q2]);
            }
        }
        out
    }
}

/// Law: the history read back for a child key that had no snapshots before a
/// cycle is exactly what that cycle appended for it — the rows written in the
/// cycle, filtered to the key, in insertion order. With the chronological
/// sort of the render path, a fresh key's chart reflects exactly that cycle's
/// snapshots.
pub proof fn lemma_fresh_key_history(
    before: Seq<IssueLogView>,
    appended: Seq<IssueLogView>,
    key: Seq<char>,
)
    requires
        !has_key(before, key),
    ensures
        (before + appended).filter(key_filter(key)) == appended.filter(key_filter(key)),
{
    broadcast use vstd::seq_lib::group_filter_ensures;

    Seq::filter_distributes_over_add(before, appended, key_filter(key));
    assert(forall|i: int| 0 <= i < before.len() ==> !(key_filter(key)(#[trigger] before[i])));
    before.lemma_all_neg_filter_empty(key_filter(key));
    assert(before.filter(key_filter(key)) + appended.filter(key_filter(key)) =~= appended.filter(
        key_filter(key),
    ));
}


impl Database {
    /// Every stored parent row, in storage order — for the boundary to save.
    pub fn all_epic_rows(&self) -> (r: Vec<EpicRow>)
        ensures
            epic_rows_view(r@) == self.epics_view(),
    {
        let mut out: Vec<EpicRow> = Vec::new();
        let mut i: usize = 0;
        while i < self.epics.len()
            invariant
                i <= self.epics@.len(),
                epic_rows_view(out@) == self.epics_view().take(i as int),
            decreases self.epics@.len() - i,
        {
            let ghost pre = out@;
            let row = self.epics[i].clone();
            out.push(row);
            proof {
                assert(out@ =~= pre.push(out@[out@.len() - 1]));
                assert(out@[out@.len() - 1]@ == self.epics@[i as int]@);
                assert(pre.len() == i) by {
                    assert(epic_rows_view(pre).len() == pre.len());
                    assert(self.epics_view().take(i as int).len() == i);
                }
                assert(out@.len() == i + 1);
                assert forall|p: int|
                    0 <= p < i + 1 implies epic_rows_view(out@)[p] == self.epics_view().take(
                    i as int + 1,
                )[p] by {
                    assert(epic_rows_view(out@)[p] == out@[p]@);
                    if p < i {
                        assert(out@[p] == pre[p]);
                        assert(epic_rows_view(pre)[p] == pre[p]@);
                        assert(epic_rows_view(pre)[p] == self.epics_view().take(i as int)[p]);
                    }
                }
                assert(epic_rows_view(out@) =~= self.epics_view().take(i as int + 1));
            }
            i += 1;
        }
        proof {
            assert(self.epics_view().take(self.epics@.len() as int) =~= self.epics_view());
        }
        out
    }

    /// Every stored snapshot row, in insertion order — for the boundary to
    /// save.
    pub fn all_issue_logs(&self) -> (r: Vec<IssueLog>)
        ensures
            issue_rows_view(r@) == self.issues_view(),
    {
        let mut out: Vec<IssueLog> = Vec::new();
        let mut i: usize = 0;
        while i < self.issues.len()
            invariant
                i <= self.issues@.len(),
                issue_rows_view(out@) == self.issues_view().take(i as int),
            decreases self.issues@.len() - i,
        {
            let ghost pre = out@;
            let row = self.issues[i].clone();
            out.push(row);
            proof {
                assert(out@ =~= pre.push(out@[out@.len() - 1]));
                assert(out@[out@.len() - 1]@ == self.issues@[i as int]@);
                assert(pre.len() == i) by {
                    assert(issue_rows_view(pre).len() == pre.len());
                    assert(self.issues_view().take(i as int).len() == i);
                }
                assert(out@.len() == i + 1);
                assert forall|p: int|
                    0 <= p < i + 1 implies issue_rows_view(out@)[p] == self.issues_view().take(
                    i as int + 1,
                )[p] by {
                    assert(issue_rows_view(out@)[p] == out@[p]@);
                    if p < i {
                        assert(out@[p] == pre[p]);
                        assert(issue_rows_view(pre)[p] == pre[p]@);
                        assert(issue_rows_view(pre)[p] == self.issues_view().take(i as int)[p]);
                    }
                }
                assert(issue_rows_view(out@) =~= self.issues_view().take(i as int + 1));
            }
            i += 1;
        }
        proof {
            assert(self.issues_view().take(self.issues@.len() as int) =~= self.issues_view());
        }
        out
    }

    /// A store rebuilt from saved rows. Succeeds exactly when the rows form a
    /// well-formed store — parent keys unique, every snapshot referencing a
    /// saved parent — and then holds exactly those rows; otherwise an
    /// integrity error names the offending key and nothing is built.
    #[verifier::loop_isolation(false)]
    pub fn restore(epics: Vec<EpicRow>, issues: Vec<IssueLog>) -> (r: Result<
        Database,
        DatabaseError,
    >)
        ensures
            r is Ok <==> restorable(epic_rows_view(epics@), issue_rows_view(issues@)),
            r matches Ok(db) ==> db.wf() && db.epics_view() == epic_rows_view(epics@)
                && db.issues_view() == issue_rows_view(issues@),
            r matches Err(e) ==> e matches DatabaseError::Integrity(_),
    {
        let ghost eviews = epic_rows_view(epics@);
        let ghost iviews = issue_rows_view(issues@);
        let mut i: usize = 0;
        while i < epics.len()
            invariant
                i <= epics@.len(),
                forall|p: int, q: int| 0 <= p < q < i ==> eviews[p].key != eviews[q].key,
            decreases epics@.len() - i,
        {
            let mut j: usize = 0;
            while j < i
                invariant
                    j <= i < epics@.len(),
                    forall|p: int| 0 <= p < j ==> eviews[p].key != eviews[i as int].key,
                decreases i - j,
            {
                if epics[j].key == epics[i].key {
                    proof {
                        assert(eviews[j as int].key == eviews[i as int].key);
                        assert(!restorable(eviews, iviews)) by {
                            if restorable(eviews, iviews) {
                                assert(eviews[j as int].key != eviews[i as int].key);
                            }
                        }
                    }
                    return Result::Err(DatabaseError::Integrity(epics[i].key.clone()));
                }
                j += 1;
            }
            i += 1;
        }
        let mut db = Database { epics, issues: Vec::new() };
        proof {
            assert(db.issues_view() =~= Seq::<IssueLogView>::empty());
            assert(db.wf());
        }
        let mut k: usize = 0;
        while k < issues.len()
            invariant
                k <= issues@.len(),
                db.wf(),
                db.epics_view() == eviews,
                db.issues_view() == iviews.take(k as int),
                forall|p: int| 0 <= p < k ==> has_epic(eviews, (#[trigger] iviews[p]).epic_key),
            decreases issues@.len() - k,
        {
            if !db.contains_epic(&issues[k].epic_key) {
                proof {
                    assert(iviews[k as int].epic_key == issues@[k as int].epic_key@);
                    assert(!restorable(eviews, iviews)) by {
                        if restorable(eviews, iviews) {
                            assert(has_epic(eviews, iviews[k as int].epic_key));
                        }
                    }
                }
                return Result::Err(DatabaseError::Integrity(issues[k].epic_key.clone()));
            }
            db.issues.push(issues[k].clone());
            proof {
                assert(db.issues_view() =~= iviews.take(k as int + 1));
            }
            k += 1;
        }
        proof {
            assert(iviews.take(issues@.len() as int) =~= iviews);
        }
        Result::Ok(db)
    }
}

} // verus!
