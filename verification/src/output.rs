//! What the reports show: totals over all leads, and the rows of the CSV export.
use vstd::prelude::*;

use crate::lead::{Lead, LeadView, SocialView};

verus! {

// ---------------------------------------------------------------------------
// Totals
// ---------------------------------------------------------------------------
/// The totals of emails, phones, social links and names over `leads`.
pub open spec fn totals(leads: Seq<LeadView>) -> (nat, nat, nat, nat)
    decreases leads.len(),
{
    if leads.len() == 0 {
        (0, 0, 0, 0)
    } else {
        let t = totals(leads.drop_last());
        let l = leads.last();
        (
            t.0 + l.emails.len(),
            t.1 + l.phones.len(),
            t.2 + l.socials.len(),
            t.3 + l.names.len(),
        )
    }
}

/// The number of emails, phones, social links and names found across `leads`.
pub fn summary_counts(leads: &Vec<Lead>) -> (r: (usize, usize, usize, usize))
    requires
        totals(leads.deep_view()).0 <= usize::MAX,
        totals(leads.deep_view()).1 <= usize::MAX,
        totals(leads.deep_view()).2 <= usize::MAX,
        totals(leads.deep_view()).3 <= usize::MAX,
    ensures
        r.0 == totals(leads.deep_view()).0,
        r.1 == totals(leads.deep_view()).1,
        r.2 == totals(leads.deep_view()).2,
        r.3 == totals(leads.deep_view()).3,
{
    let ghost lv = leads.deep_view();
    let mut e: usize = 0;
    let mut p: usize = 0;
    let mut s: usize = 0;
    let mut n: usize = 0;
    let mut i: usize = 0;
    while i < leads.len()
        invariant
            i <= leads.len(),
            lv == leads.deep_view(),
            totals(lv).0 <= usize::MAX,
            totals(lv).1 <= usize::MAX,
            totals(lv).2 <= usize::MAX,
            totals(lv).3 <= usize::MAX,
            (e as nat, p as nat, s as nat, n as nat) == totals(lv.take(i as int)),
        decreases leads.len() - i,
    {
        assert(lv.take(i + 1).drop_last() =~= lv.take(i as int));
        assert(lv.take(i + 1).last() == leads@[i as int]@);
        proof {
            lemma_totals_prefix(lv, i + 1);
        }
        e = e + leads[i].emails.len();
        p = p + leads[i].phones.len();
        s = s + leads[i].socials.len();
        n = n + leads[i].names.len();
        i = i + 1;
    }
    assert(lv.take(i as int) =~= lv);
    (e, p, s, n)
}

/// The totals over a prefix are at most the totals over the whole.
pub proof fn lemma_totals_prefix(leads: Seq<LeadView>, k: int)
    requires
        0 <= k <= leads.len(),
    ensures
        totals(leads.take(k)).0 <= totals(leads).0,
        totals(leads.take(k)).1 <= totals(leads).1,
        totals(leads.take(k)).2 <= totals(leads).2,
        totals(leads.take(k)).3 <= totals(leads).3,
    decreases leads.len(),
{
    if k < leads.len() {
        lemma_totals_prefix(leads.drop_last(), k);
        assert(leads.drop_last().take(k) =~= leads.take(k));
    } else {
        assert(leads.take(k) =~= leads);
    }
}

// ---------------------------------------------------------------------------
// CSV rows
// ---------------------------------------------------------------------------
/// One row of the CSV export.
#[derive(Debug, Clone)]
pub struct CsvRow {
    pub source_url: String,
    pub kind: String,
    pub value: String,
    pub platform: String,
    pub username: String,
}

/// The mathematical value of a [`CsvRow`]: its five fields in order.
pub type CsvRowView = (Seq<char>, Seq<char>, Seq<char>, Seq<char>, Seq<char>);

impl View for CsvRow {
    type V = CsvRowView;

    open spec fn view(&self) -> CsvRowView {
        (self.source_url@, self.kind@, self.value@, self.platform@, self.username@)
    }
}

impl DeepView for CsvRow {
    type V = CsvRowView;

    open spec fn deep_view(&self) -> CsvRowView {
        self@
    }
}

/// The header row.
pub open spec fn header_row() -> CsvRowView {
    ("source_url"@, "type"@, "value"@, "platform"@, "username"@)
}

/// The rows of the contact items `items` of kind `kind` found on `url`.
pub open spec fn item_rows(url: Seq<char>, kind: Seq<char>, items: Seq<Seq<char>>) -> Seq<CsvRowView> {
    items.map_values(|v: Seq<char>| (url, kind, v, Seq::empty(), Seq::empty()))
}

/// The row of a social link found on `url`.
pub open spec fn social_row(url: Seq<char>, s: SocialView) -> CsvRowView {
    (
        url,
        "social"@,
        s.url,
        s.platform,
        match s.username {
            Some(u) => u,
            None => Seq::empty(),
        },
    )
}

/// The rows of one lead: its names, emails, phones, then social links.
pub open spec fn lead_rows(l: LeadView) -> Seq<CsvRowView> {
    item_rows(l.url, "name"@, l.names) + item_rows(l.url, "email"@, l.emails) + item_rows(
        l.url,
        "phone"@,
        l.phones,
    ) + l.socials.map_values(|s: SocialView| social_row(l.url, s))
}

/// The rows of all leads, in order (one row per contact item).
pub open spec fn all_rows(leads: Seq<LeadView>) -> Seq<CsvRowView>
    decreases leads.len(),
{
    if leads.len() == 0 {
        Seq::empty()
    } else {
        all_rows(leads.drop_last()) + lead_rows(leads.last())
    }
}

/// Appends the rows of the items `items` of kind `kind` found on `url`.
fn push_item_rows(rows: &mut Vec<CsvRow>, url: &String, kind: &str, items: &Vec<String>)
    ensures
        final(rows).deep_view() == old(rows).deep_view() + item_rows(url@, kind@, items.deep_view()),
{
    let ghost start = rows.deep_view();
    let ghost iv = items.deep_view();
    let mut i: usize = 0;
    while i < items.len()
        invariant
            i <= items.len(),
            iv == items.deep_view(),
            rows.deep_view() == start + item_rows(url@, kind@, iv.take(i as int)),
        decreases items.len() - i,
    {
        let ghost before_push = rows.deep_view();
        let row = CsvRow {
            source_url: url.clone(),
            kind: kind.to_owned(),
            value: items[i].clone(),
            platform: String::new(),
            username: String::new(),
        };
        assert(row@ == (url@, kind@, iv[i as int], Seq::<char>::empty(), Seq::<char>::empty()));
        rows.push(row);
        assert(rows.deep_view() =~= before_push.push(row@));
        assert(item_rows(url@, kind@, iv.take(i + 1)) =~= item_rows(url@, kind@, iv.take(i as int)).push(row@));
        i = i + 1;
    }
    assert(iv.take(i as int) =~= iv);
}

/// Appends the rows of one lead.
fn push_lead_rows(rows: &mut Vec<CsvRow>, lead: &Lead)
    ensures
        final(rows).deep_view() == old(rows).deep_view() + lead_rows(lead@),
{
    let ghost start = rows.deep_view();
    push_item_rows(rows, &lead.url, "name", &lead.names);
    push_item_rows(rows, &lead.url, "email", &lead.emails);
    push_item_rows(rows, &lead.url, "phone", &lead.phones);
    let ghost mid = rows.deep_view();
    let ghost sv = lead.socials.deep_view();
    let mut i: usize = 0;
    while i < lead.socials.len()
        invariant
            i <= lead.socials.len(),
            sv == lead.socials.deep_view(),
            rows.deep_view() == mid + sv.take(i as int).map_values(
                |s: SocialView| social_row(lead.url@, s),
            ),
        decreases lead.socials.len() - i,
    {
        let ghost before_push = rows.deep_view();
        let s = &lead.socials[i];
        let row = CsvRow {
            source_url: lead.url.clone(),
            kind: "social".to_owned(),
            value: s.url.clone(),
            platform: s.platform.clone(),
            username: match &s.username {
                Some(u) => u.clone(),
                None => String::new(),
            },
        };
        assert(sv[i as int] == s@);
        assert(row@ == social_row(lead.url@, sv[i as int]));
        rows.push(row);
        assert(rows.deep_view() =~= before_push.push(row@));
        assert(sv.take(i + 1).map_values(|s: SocialView| social_row(lead.url@, s)) =~= sv.take(
            i as int,
        ).map_values(|s: SocialView| social_row(lead.url@, s)).push(row@));
        i = i + 1;
    }
    assert(sv.take(i as int) =~= sv);
    assert(rows.deep_view() =~= start + lead_rows(lead@));
}

/// The CSV export of `leads`: the header row, then one row per contact item.
pub fn csv_table(leads: &Vec<Lead>) -> (r: Vec<CsvRow>)
    ensures
        r.deep_view() == seq![header_row()] + all_rows(leads.deep_view()),
{
    let mut rows: Vec<CsvRow> = Vec::new();
    let header = CsvRow {
        source_url: "source_url".to_owned(),
        kind: "type".to_owned(),
        value: "value".to_owned(),
        platform: "platform".to_owned(),
        username: "username".to_owned(),
    };
    rows.push(header);
    let ghost lv = leads.deep_view();
    let mut i: usize = 0;
    assert(rows.deep_view() =~= seq![header_row()] + all_rows(lv.take(0)));
    while i < leads.len()
        invariant
            i <= leads.len(),
            lv == leads.deep_view(),
            rows.deep_view() == seq![header_row()] + all_rows(lv.take(i as int)),
        decreases leads.len() - i,
    {
        assert(lv.take(i + 1).drop_last() =~= lv.take(i as int));
        assert(lv.take(i + 1).last() == leads@[i as int]@);
        push_lead_rows(&mut rows, &leads[i]);
        assert(rows.deep_view() =~= seq![header_row()] + all_rows(lv.take(i + 1)));
        i = i + 1;
    }
    assert(lv.take(i as int) =~= lv);
    rows
}

/// The CSV export has one row per contact item, after the header: as many rows
/// as the totals of emails, phones, social links and names add up to.
pub proof fn law_one_row_per_item(leads: Seq<LeadView>)
    ensures
        all_rows(leads).len() == totals(leads).0 + totals(leads).1 + totals(leads).2 + totals(
            leads,
        ).3,
    decreases leads.len(),
{
    if leads.len() > 0 {
        law_one_row_per_item(leads.drop_last());
    }
}

} // verus!
