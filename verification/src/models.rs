use vstd::prelude::*;

verus! {

/// A user of the remote issue tracker, as the remote API reports it.
pub struct JiraUser {
    pub name: String,
    pub email: String,
}

/// Mathematical image of a [`JiraUser`].
pub struct JiraUserView {
    pub name: Seq<char>,
    pub email: Seq<char>,
}

impl View for JiraUser {
    type V = JiraUserView;

    open spec fn view(&self) -> JiraUserView {
        JiraUserView { name: self.name@, email: self.email@ }
    }
}

/// The attribute block of one remote record. Optional attributes stay
/// optional here; the store maps each absent one to its documented default.
pub struct JiraIssueFields {
    pub summary: String,
    pub epic_key: Option<String>,
    pub time_estimate: Option<u64>,
    pub time_spent: Option<u64>,
    pub assignee: Option<JiraUser>,
}

/// Mathematical image of [`JiraIssueFields`].
pub struct JiraIssueFieldsView {
    pub summary: Seq<char>,
    pub epic_key: Option<Seq<char>>,
    pub time_estimate: Option<u64>,
    pub time_spent: Option<u64>,
    pub assignee: Option<JiraUserView>,
}

impl View for JiraIssueFields {
    type V = JiraIssueFieldsView;

    open spec fn view(&self) -> JiraIssueFieldsView {
        JiraIssueFieldsView {
            summary: self.summary@,
            epic_key: match self.epic_key {
                Option::Some(k) => Option::Some(k@),
                Option::None => Option::None,
            },
            time_estimate: self.time_estimate,
            time_spent: self.time_spent,
            assignee: match self.assignee {
                Option::Some(u) => Option::Some(u@),
                Option::None => Option::None,
            },
        }
    }
}

/// One record fetched from the remote tracker: a key and its attributes.
pub struct JiraIssue {
    pub key: String,
    pub fields: JiraIssueFields,
}

/// Mathematical image of a [`JiraIssue`].
pub struct JiraIssueView {
    pub key: Seq<char>,
    pub fields: JiraIssueFieldsView,
}

impl View for JiraIssue {
    type V = JiraIssueView;

    open spec fn view(&self) -> JiraIssueView {
        JiraIssueView { key: self.key@, fields: self.fields@ }
    }
}

/// One page of a paginated query answer from the remote tracker.
pub struct IssueListResponse {
    pub expand: String,
    pub start_at: u64,
    pub max_results: u64,
    pub total: u64,
    pub issues: Vec<JiraIssue>,
}

/// A parent entity as the read path reports it: key and display summary.
pub struct Epic {
    pub key: String,
    pub summary: String,
}

/// Mathematical image of an [`Epic`].
pub struct EpicView {
    pub key: Seq<char>,
    pub summary: Seq<char>,
}

impl View for Epic {
    type V = EpicView;

    open spec fn view(&self) -> EpicView {
        EpicView { key: self.key@, summary: self.summary@ }
    }
}

/// One persisted snapshot of a child entity at one collection cycle.
pub struct IssueLog {
    pub key: String,
    pub summary: String,
    pub epic_key: String,
    pub time_estimate: i64,
    pub time_spent: i64,
    pub updated_at: String,
    pub assignee: String,
}

/// Mathematical image of an [`IssueLog`].
pub struct IssueLogView {
    pub key: Seq<char>,
    pub summary: Seq<char>,
    pub epic_key: Seq<char>,
    pub time_estimate: i64,
    pub time_spent: i64,
    pub updated_at: Seq<char>,
    pub assignee: Seq<char>,
}

impl View for IssueLog {
    type V = IssueLogView;

    open spec fn view(&self) -> IssueLogView {
        IssueLogView {
            key: self.key@,
            summary: self.summary@,
            epic_key: self.epic_key@,
            time_estimate: self.time_estimate,
            time_spent: self.time_spent,
            updated_at: self.updated_at@,
            assignee: self.assignee@,
        }
    }
}

impl Clone for IssueLog {
    fn clone(&self) -> (r: Self)
        ensures
            r@ == self@,
    {
        IssueLog {
            key: self.key.clone(),
            summary: self.summary.clone(),
            epic_key: self.epic_key.clone(),
            time_estimate: self.time_estimate,
            time_spent: self.time_spent,
            updated_at: self.updated_at.clone(),
            assignee: self.assignee.clone(),
        }
    }
}

impl Clone for Epic {
    fn clone(&self) -> (r: Self)
        ensures
            r@ == self@,
    {
        Epic { key: self.key.clone(), summary: self.summary.clone() }
    }
}

} // verus!
