use vstd::prelude::*;

use crate::models::{IssueListResponse, JiraIssue, JiraIssueView};

verus! {

/// The views of a sequence of fetched records.
pub open spec fn issue_views(records: Seq<JiraIssue>) -> Seq<JiraIssueView> {
    records.map_values(|r: JiraIssue| r@)
}

/// One page accepted by the paginated client: the page's records are
/// appended, and a further request is issued — at the offset equal to the
/// running count — exactly while that count stays below the server-reported
/// total.
pub fn accumulate_page(collected: &mut Vec<JiraIssue>, page: IssueListResponse) -> (r: Option<
    u64,
>)
    ensures
        issue_views(final(collected)@) == issue_views(old(collected)@) + issue_views(page.issues@),
        r matches Option::Some(off) ==> off == final(collected)@.len() as u64 && (final(
            collected)@.len() as u64) < page.total,
        r is None <==> final(collected)@.len() as u64 >= page.total,
{
    let total = page.total;
    let mut items = page.issues;
    collected.append(&mut items);
    proof {
        assert(issue_views(final(collected)@) =~= issue_views(old(collected)@) + issue_views(
            page.issues@,
        ));
    }
    let n = collected.len();
    if (n as u64) < total {
        Option::Some(n as u64)
    } else {
        Option::None
    }
}

/// The run of the pagination loop against the pages a server would serve:
/// how many requests the client issues and what it accumulates. The first
/// request is always issued; after each page the client continues exactly
/// while the running count is below the reported total, at the offset equal
/// to that count.
pub open spec fn spec_paginate(pages: Seq<Seq<JiraIssueView>>, acc: Seq<JiraIssueView>, total: nat) -> (nat, Seq<
    JiraIssueView,
>)
    decreases pages.len(),
{
    if pages.len() == 0 {
        (1, acc)
    } else {
        let acc2 = acc + pages[0];
        if acc2.len() >= total {
            (1, acc2)
        } else {
            let rest = spec_paginate(pages.skip(1), acc2, total);
            ((rest.0 + 1) as nat, rest.1)
        }
    }
}

/// A server's pages cover `remaining` records in full pages of `page_size`,
/// the last page short.
pub open spec fn well_paged(pages: Seq<Seq<JiraIssueView>>, remaining: nat, page_size: nat) -> bool
    decreases pages.len(),
{
    if pages.len() == 0 {
        false
    } else if remaining <= page_size {
        pages.len() == 1 && pages[0].len() == remaining
    } else {
        pages[0].len() == page_size && well_paged(
            pages.skip(1),
            (remaining - page_size) as nat,
            page_size,
        )
    }
}

proof fn lemma_paginate_run(
    pages: Seq<Seq<JiraIssueView>>,
    acc: Seq<JiraIssueView>,
    total: nat,
    page_size: nat,
)
    requires
        page_size > 0,
        acc.len() < total,
        well_paged(pages, (total - acc.len()) as nat, page_size),
    ensures
        spec_paginate(pages, acc, total).0 == pages.len(),
        spec_paginate(pages, acc, total).1 == acc + pages.flatten(),
        (acc + pages.flatten()).len() == total,
    decreases pages.len(),
{
    let remaining = (total - acc.len()) as nat;
    let acc2 = acc + pages[0];
    if remaining <= page_size {
        assert(pages.len() == 1 && pages[0].len() == remaining);
        assert(acc2.len() == total);
        assert(pages.skip(1) =~= Seq::<Seq<JiraIssueView>>::empty());
        assert(pages.skip(1).flatten() =~= Seq::<JiraIssueView>::empty());
        assert(pages.flatten() =~= pages[0] + pages.skip(1).flatten());
        assert(acc + pages.flatten() =~= acc2);
    } else {
        assert(pages[0].len() == page_size);
        assert(acc2.len() < total);
        lemma_paginate_run(pages.skip(1), acc2, total, page_size);
        assert(pages.flatten() =~= pages[0] + pages.skip(1).flatten());
        assert(acc + pages.flatten() =~= acc2 + pages.skip(1).flatten());
    }
}

proof fn lemma_well_paged_count(pages: Seq<Seq<JiraIssueView>>, remaining: nat, page_size: nat)
    requires
        page_size > 0,
        remaining > 0,
        well_paged(pages, remaining, page_size),
    ensures
        pages.len() == (remaining + page_size - 1) as int / page_size as int,
    decreases pages.len(),
{
    if remaining <= page_size {
        vstd::arithmetic::div_mod::lemma_fundamental_div_mod_converse(
            (remaining + page_size - 1) as int,
            page_size as int,
            1,
            (remaining - 1) as int,
        );
    } else {
        lemma_well_paged_count(pages.skip(1), (remaining - page_size) as nat, page_size);
        vstd::arithmetic::div_mod::lemma_div_plus_one(
            (remaining - page_size + page_size - 1) as int,
            page_size as int,
        );
        assert((remaining + page_size - 1) as int == page_size + (remaining - page_size
            + page_size - 1));
    }
}

/// Law: against a server that reports `total` records and serves them in
/// pages of `page_size` (the last page short, a zero total as one empty
/// page), the client issues exactly one request when the total is 0 and
/// exactly the total divided by the page size, rounded up, otherwise — and it
/// accumulates exactly the concatenation of the pages: every record once,
/// `total` records in all.
pub proof fn lemma_pagination_requests(
    pages: Seq<Seq<JiraIssueView>>,
    total: nat,
    page_size: nat,
)
    requires
        page_size > 0,
        total == 0 ==> pages.len() == 1 && pages[0].len() == 0,
        total > 0 ==> well_paged(pages, total, page_size),
    ensures
        spec_paginate(pages, Seq::empty(), total).0 == if total == 0 {
            1nat
        } else {
            ((total + page_size - 1) as int / page_size as int) as nat
        },
        spec_paginate(pages, Seq::empty(), total).1 == pages.flatten(),
        pages.flatten().len() == total,
{
    let empty = Seq::<JiraIssueView>::empty();
    if total == 0 {
        assert(empty + pages[0] =~= empty);
        assert(spec_paginate(pages, empty, total).0 == 1);
        assert(pages.skip(1) =~= Seq::<Seq<JiraIssueView>>::empty());
        assert(pages.skip(1).flatten() =~= Seq::<JiraIssueView>::empty());
        assert(pages.flatten() =~= pages[0] + pages.skip(1).flatten());
        assert(pages.flatten() =~= empty);
    } else {
        lemma_paginate_run(pages, empty, total, page_size);
        lemma_well_paged_count(pages, total, page_size);
        assert(empty + pages.flatten() =~= pages.flatten());
    }
}

} // verus!
