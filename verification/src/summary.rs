//! Session summaries: the projection of a session used for listings,
//! diff reports and search. Scanning directories and reading file
//! sizes is I/O and happens outside this crate; the filtering,
//! ordering and display decisions on the scanned data are made here.

use vstd::prelude::*;

use crate::config_sync::{now_epoch_millis, parse_rfc3339, rfc3339_epoch};
use crate::session::{
    message_count_spec, opt_view, title_spec, ConversationSession, EntryView, first_timestamp_spec,
    latest_timestamp_spec,
};
use crate::text::{
    chars_to_string, contains_seq, dec_digits, find_spec, lex_le, str_eq, str_views, sub_vec,
    to_chars, u64_to_dec_chars, contains_exec, find_in,
};

verus! {

// ---------------------------------------------------------------------
// Relative time formatting.
// ---------------------------------------------------------------------

/// The human label for an age of `diff` seconds (a negative age reads
/// as no age at all).
pub open spec fn relative_label(diff: int) -> Seq<char> {
    let d = if diff < 0 {
        0
    } else {
        diff
    };
    let minutes = d / 60;
    let hours = d / 3600;
    let days = d / 86400;
    if days == 0 {
        if hours == 0 {
            if minutes <= 1 {
                "Just now"@
            } else {
                dec_digits(minutes as nat) + " min ago"@
            }
        } else if hours == 1 {
            "1 hour ago"@
        } else {
            dec_digits(hours as nat) + " hours ago"@
        }
    } else if days == 1 {
        "Yesterday"@
    } else if days < 7 {
        dec_digits(days as nat) + " days ago"@
    } else if days < 30 {
        if days / 7 == 1 {
            "1 week ago"@
        } else {
            dec_digits((days / 7) as nat) + " weeks ago"@
        }
    } else {
        if days / 30 == 1 {
            "1 month ago"@
        } else {
            dec_digits((days / 30) as nat) + " months ago"@
        }
    }
}

/// The age in whole seconds of timestamp `t` (an epoch millisecond)
/// at time `now` (likewise), clamped below at zero.
pub open spec fn age_of(now: int, t: int) -> int {
    if now <= t {
        0
    } else {
        (now - t) / 1000
    }
}

fn label_of_age(d: u64) -> (r: String)
    ensures
        r@ == relative_label(d as int),
{
    let minutes = d / 60;
    let hours = d / 3600;
    let days = d / 86400;
    if days == 0 {
        if hours == 0 {
            if minutes <= 1 {
                String::from_str("Just now")
            } else {
                let mut s = chars_to_string(&u64_to_dec_chars(minutes));
                s.append(" min ago");
                s
            }
        } else if hours == 1 {
            String::from_str("1 hour ago")
        } else {
            let mut s = chars_to_string(&u64_to_dec_chars(hours));
            s.append(" hours ago");
            s
        }
    } else if days == 1 {
        String::from_str("Yesterday")
    } else if days < 7 {
        let mut s = chars_to_string(&u64_to_dec_chars(days));
        s.append(" days ago");
        s
    } else if days < 30 {
        if days / 7 == 1 {
            String::from_str("1 week ago")
        } else {
            let mut s = chars_to_string(&u64_to_dec_chars(days / 7));
            s.append(" weeks ago");
            s
        }
    } else {
        if days / 30 == 1 {
            String::from_str("1 month ago")
        } else {
            let mut s = chars_to_string(&u64_to_dec_chars(days / 30));
            s.append(" months ago");
            s
        }
    }
}

/// Formats a timestamp's age at time `now` (an epoch millisecond) as
/// a human label; unreadable timestamps read as unknown.
pub fn format_relative_time(timestamp: &str, now: i64) -> (r: String)
    ensures
        r@ == match rfc3339_epoch(timestamp@) {
            Some(t) => relative_label(age_of(now as int, t as int)),
            None => "Unknown"@,
        },
{
    match parse_rfc3339(timestamp) {
        Some(t) => {
            let diff: i128 = (now as i128) - (t as i128);
            let d: u64 = if diff <= 0 {
                0
            } else {
                #[verifier::truncate] (diff as u64) / 1000
            };
            proof {
                assert(d as int == age_of(now as int, t as int));
            }
            label_of_age(d)
        },
        None => String::from_str("Unknown"),
    }
}

// ---------------------------------------------------------------------
// Summaries.
// ---------------------------------------------------------------------

/// One project directory in a listing.
pub struct ProjectSummary {
    pub name: String,
    pub dir_path: String,
    pub session_count: usize,
    pub last_activity: Option<String>,
}

/// One session in a listing: the session's derived attributes plus the
/// file metadata the caller read.
pub struct SessionSummary {
    pub session_id: String,
    pub title: String,
    pub project_name: String,
    pub project_dir: String,
    pub file_path: String,
    pub message_count: usize,
    pub user_message_count: usize,
    pub assistant_message_count: usize,
    pub first_timestamp: Option<String>,
    pub last_activity: Option<String>,
    pub file_size: u64,
}

pub struct SummaryView {
    pub session_id: Seq<char>,
    pub title: Seq<char>,
    pub project_name: Seq<char>,
    pub project_dir: Seq<char>,
    pub file_path: Seq<char>,
    pub message_count: int,
    pub user_message_count: int,
    pub assistant_message_count: int,
    pub first_timestamp: Option<Seq<char>>,
    pub last_activity: Option<Seq<char>>,
    pub file_size: u64,
}

impl View for SessionSummary {
    type V = SummaryView;

    open spec fn view(&self) -> SummaryView {
        SummaryView {
            session_id: self.session_id@,
            title: self.title@,
            project_name: self.project_name@,
            project_dir: self.project_dir@,
            file_path: self.file_path@,
            message_count: self.message_count as int,
            user_message_count: self.user_message_count as int,
            assistant_message_count: self.assistant_message_count as int,
            first_timestamp: opt_view(self.first_timestamp),
            last_activity: opt_view(self.last_activity),
            file_size: self.file_size,
        }
    }
}

/// How many entries carry this type.
pub open spec fn count_kind(entries: Seq<EntryView>, kind: Seq<char>) -> nat
    decreases entries.len(),
{
    if entries.len() == 0 {
        0
    } else {
        count_kind(entries.drop_last(), kind) + if entries.last().entry_type == Some(kind) {
            1nat
        } else {
            0
        }
    }
}

fn count_kind_exec(session: &ConversationSession, kind: &str) -> (r: usize)
    ensures
        r == count_kind(session@.entries, kind@),
{
    let ghost es = session@.entries;
    let mut count: usize = 0;
    let mut i: usize = 0;
    proof {
        assert(es.take(0) =~= Seq::<EntryView>::empty());
    }
    while i < session.entries.len()
        invariant
            es == session@.entries,
            es.len() == session.entries@.len(),
            i <= es.len(),
            count == count_kind(es.take(i as int), kind@),
            count <= i,
        decreases es.len() - i,
    {
        proof {
            assert(es.take(i + 1).drop_last() =~= es.take(i as int));
            assert(es.take(i + 1).last() == es[i as int]);
            assert(es[i as int] == session.entries@[i as int]@);
        }
        let is_kind = match &session.entries[i].entry_type {
            Some(t) => str_eq(t.as_str(), kind),
            None => false,
        };
        if is_kind {
            count = count + 1;
        }
        i = i + 1;
    }
    proof {
        assert(es.take(es.len() as int) =~= es);
    }
    count
}

impl SessionSummary {
    /// Builds the listing projection of a session. The file size is
    /// read by the caller; an unreadable size reads as zero, as the
    /// scan treats it.
    pub fn from_session(
        session: &ConversationSession,
        project_name: &str,
        project_dir: &str,
        file_size: u64,
    ) -> (r: SessionSummary)
        ensures
            r@.session_id == session@.session_id,
            r@.title == match title_spec(session@.entries) {
                Some(t) => t,
                None => "(No title)"@,
            },
            r@.project_name == project_name@,
            r@.project_dir == project_dir@,
            r@.file_path == session@.file_path,
            r@.message_count == message_count_spec(session@.entries),
            r@.user_message_count == count_kind(session@.entries, "user"@),
            r@.assistant_message_count == count_kind(session@.entries, "assistant"@),
            r@.first_timestamp == first_timestamp_spec(session@.entries),
            r@.last_activity == latest_timestamp_spec(session@.entries),
            r@.file_size == file_size,
    {
        let title = match session.title() {
            Some(t) => t,
            None => String::from_str("(No title)"),
        };
        SessionSummary {
            session_id: session.session_id.clone(),
            title,
            project_name: String::from_str(project_name),
            project_dir: String::from_str(project_dir),
            file_path: session.file_path.clone(),
            message_count: session.message_count(),
            user_message_count: count_kind_exec(session, "user"),
            assistant_message_count: count_kind_exec(session, "assistant"),
            first_timestamp: session.first_timestamp(),
            last_activity: session.latest_timestamp(),
            file_size,
        }
    }

    /// The title cut to at most `max_chars` characters, newlines read
    /// as spaces, with a three-dot ellipsis when cut.
    pub fn display_title(&self, max_chars: usize) -> (r: String)
        requires
            max_chars >= 3,
        ensures
            r@ == display_title_spec(self.title@, max_chars as int),
    {
        let tv = to_chars(self.title.as_str());
        let mut flat: Vec<char> = Vec::new();
        let mut i: usize = 0;
        proof {
            assert(self.title@.map_values(|c: char| flatten_char(c)).take(0)
                =~= Seq::<char>::empty());
        }
        while i < tv.len()
            invariant
                tv@ == self.title@,
                i <= tv@.len(),
                flat@ == self.title@.map_values(|c: char| flatten_char(c)).take(i as int),
            decreases tv@.len() - i,
        {
            let c = tv[i];
            if c == '\n' {
                flat.push(' ');
            } else {
                flat.push(c);
            }
            i = i + 1;
            proof {
                assert(flat@ =~= self.title@.map_values(|c: char| flatten_char(c)).take(i as int));
            }
        }
        proof {
            let m = self.title@.map_values(|c: char| flatten_char(c));
            assert(m.take(m.len() as int) =~= m);
        }
        if flat.len() > max_chars {
            let head = sub_vec(&flat, 0, max_chars - 3);
            let mut s = chars_to_string(&head);
            s.append("...");
            proof {
                reveal_strlit("...");
                assert(s@ =~= display_title_spec(self.title@, max_chars as int));
            }
            s
        } else {
            chars_to_string(&flat)
        }
    }

    /// The label for the session's last activity at the clock's time
    /// now; a session without one reads as unknown.
    pub fn relative_time(&self) -> (r: String)
        ensures
            match self.last_activity {
                None => r@ == "Unknown"@,
                Some(ts) => match rfc3339_epoch(ts@) {
                    None => r@ == "Unknown"@,
                    Some(t) => exists|now: int| r@ == relative_label(age_of(now, t as int)),
                },
            },
    {
        match &self.last_activity {
            Some(ts) => {
                let now = now_epoch_millis();
                let r = format_relative_time(ts.as_str(), now);
                proof {
                    if rfc3339_epoch(ts@) is Some {
                        let t = rfc3339_epoch(ts@)->Some_0;
                        assert(exists|now2: int| r@ == relative_label(age_of(now2, t as int)))
                            by {
                            assert(r@ == relative_label(age_of(now as int, t as int)));
                        }
                    }
                }
                r
            },
            None => String::from_str("Unknown"),
        }
    }
}

pub open spec fn flatten_char(c: char) -> char {
    if c == '\n' {
        ' '
    } else {
        c
    }
}

/// The display form of a title: newlines as spaces, cut to
/// `max_chars` characters with a three-dot ellipsis when longer.
pub open spec fn display_title_spec(title: Seq<char>, max_chars: int) -> Seq<char> {
    let flat = title.map_values(|c: char| flatten_char(c));
    if flat.len() > max_chars {
        flat.take(max_chars - 3) + seq!['.', '.', '.']
    } else {
        flat
    }
}

// ---------------------------------------------------------------------
// Validity and the listing scan.
// ---------------------------------------------------------------------

/// A session worth listing: it has messages and a derivable title.
pub fn is_valid_session(session: &ConversationSession) -> (r: bool)
    ensures
        r == (message_count_spec(session@.entries) > 0 && title_spec(session@.entries) is Some),
{
    if session.message_count() == 0 {
        return false;
    }
    match session.title() {
        Some(_) => true,
        None => false,
    }
}

pub open spec fn valid_summary(s: SummaryView) -> bool {
    s.message_count > 0 && s.title != "(No title)"@
}

/// A summary worth listing: it has messages and a real title.
pub fn is_valid_session_summary(summary: &SessionSummary) -> (r: bool)
    ensures
        r == valid_summary(summary@),
{
    if summary.message_count == 0 {
        return false;
    }
    !str_eq(summary.title.as_str(), "(No title)")
}

pub open spec fn summary_views(ss: Seq<SessionSummary>) -> Seq<SummaryView> {
    ss.map_values(|s: SessionSummary| s@)
}

/// Ordering for listings: by last activity, most recent first; a
/// summary without activity sorts last.
pub open spec fn activity_ge(a: Option<Seq<char>>, b: Option<Seq<char>>) -> bool {
    match (a, b) {
        (None, None) => true,
        (Some(_), None) => true,
        (None, Some(_)) => false,
        (Some(x), Some(y)) => lex_le(y, x),
    }
}

/// Where a summary lands among already-ordered ones: behind everything
/// at least as recent, in front of the first strictly older one.
pub open spec fn insert_desc(acc: Seq<SummaryView>, x: SummaryView) -> Seq<SummaryView>
    decreases acc.len(),
{
    if acc.len() == 0 {
        seq![x]
    } else if activity_ge(acc[0].last_activity, x.last_activity) {
        seq![acc[0]] + insert_desc(acc.skip(1), x)
    } else {
        seq![x] + acc
    }
}

/// The one ordering the listing shows: each summary inserted in turn,
/// most recent first, ties keeping their scan order.
pub open spec fn sort_desc_spec(s: Seq<SummaryView>) -> Seq<SummaryView>
    decreases s.len(),
{
    if s.len() == 0 {
        s
    } else {
        insert_desc(sort_desc_spec(s.drop_last()), s.last())
    }
}

proof fn lemma_insert_desc_at(acc: Seq<SummaryView>, x: SummaryView, p: int)
    requires
        0 <= p <= acc.len(),
        forall|q: int| 0 <= q < p ==> activity_ge(
            (#[trigger] acc[q]).last_activity,
            x.last_activity,
        ),
        p < acc.len() ==> !activity_ge(acc[p].last_activity, x.last_activity),
    ensures
        insert_desc(acc, x) == acc.take(p) + seq![x] + acc.skip(p),
    decreases p,
{
    if p == 0 {
        if acc.len() == 0 {
            assert(insert_desc(acc, x) =~= acc.take(0) + seq![x] + acc.skip(0));
        } else {
            assert(insert_desc(acc, x) =~= acc.take(0) + seq![x] + acc.skip(0));
        }
    } else {
        assert(activity_ge(acc[0].last_activity, x.last_activity));
        lemma_insert_desc_at(acc.skip(1), x, p - 1);
        assert(acc.skip(1).take(p - 1) =~= acc.take(p).skip(1));
        assert(seq![acc[0]] + (acc.skip(1).take(p - 1) + seq![x] + acc.skip(1).skip(p - 1))
            =~= acc.take(p) + seq![x] + acc.skip(p));
    }
}

fn clone_summary(s: &SessionSummary) -> (r: SessionSummary)
    ensures
        r@ == s@,
{
    SessionSummary {
        session_id: s.session_id.clone(),
        title: s.title.clone(),
        project_name: s.project_name.clone(),
        project_dir: s.project_dir.clone(),
        file_path: s.file_path.clone(),
        message_count: s.message_count,
        user_message_count: s.user_message_count,
        assistant_message_count: s.assistant_message_count,
        first_timestamp: crate::session::clone_opt_string(&s.first_timestamp),
        last_activity: crate::session::clone_opt_string(&s.last_activity),
        file_size: s.file_size,
    }
}

fn activity_ge_exec(a: &Option<String>, b: &Option<String>) -> (r: bool)
    ensures
        r == activity_ge(opt_view(*a), opt_view(*b)),
{
    match (a, b) {
        (None, None) => true,
        (Some(_), None) => true,
        (None, Some(_)) => false,
        (Some(x), Some(y)) => {
            let xv = to_chars(x.as_str());
            let yv = to_chars(y.as_str());
            crate::text::lex_le_exec(&yv, &xv)
        },
    }
}

/// Sorts summaries most-recent-first, keeping exactly the same
/// collection of summaries.
fn sort_by_activity(items: &Vec<SessionSummary>) -> (r: Vec<SessionSummary>)
    ensures
        summary_views(r@) == sort_desc_spec(summary_views(items@)),
        summary_views(r@).to_multiset() == summary_views(items@).to_multiset(),
        forall|i: int, j: int| 0 <= i < j < r@.len() ==> activity_ge(
            (#[trigger] r@[i])@.last_activity,
            (#[trigger] r@[j])@.last_activity,
        ),
{
    broadcast use vstd::seq_lib::group_to_multiset_ensures;

    let mut r: Vec<SessionSummary> = Vec::new();
    let mut n: usize = 0;
    proof {
        assert(summary_views(items@).take(0) =~= Seq::<SummaryView>::empty());
        assert(summary_views(r@) =~= Seq::<SummaryView>::empty());
    }
    proof {
        assert(summary_views(items@).take(0) =~= Seq::<SummaryView>::empty());
    }
    while n < items.len()
        invariant
            n <= items@.len(),
            summary_views(r@) == sort_desc_spec(summary_views(items@).take(n as int)),
            summary_views(r@).to_multiset() == summary_views(items@).take(n as int).to_multiset(),
            forall|i: int, j: int| 0 <= i < j < r@.len() ==> activity_ge(
                (#[trigger] r@[i])@.last_activity,
                (#[trigger] r@[j])@.last_activity,
            ),
        decreases items@.len() - n,
    {
        broadcast use vstd::seq_lib::group_to_multiset_ensures;

        let x = clone_summary(&items[n]);
        let ghost xv = x@;
        // find the first position whose activity is strictly older
        let mut p: usize = 0;
        while p < r.len() && activity_ge_exec(&r[p].last_activity, &x.last_activity)
            invariant
                p <= r@.len(),
                xv == x@,
                forall|q: int| 0 <= q < p ==> activity_ge(
                    (#[trigger] r@[q])@.last_activity,
                    xv.last_activity,
                ),
                p < r@.len() ==> (p > 0 ==> activity_ge(
                    r@[p as int - 1]@.last_activity,
                    xv.last_activity,
                )),
            decreases r@.len() - p,
        {
            p = p + 1;
        }
        proof {
            if p < r@.len() {
                assert(!activity_ge(r@[p as int]@.last_activity, xv.last_activity));
                lemma_activity_total(r@[p as int]@.last_activity, xv.last_activity);
            }
        }
        let ghost prev_r = r@;
        r.insert(p, x);
        proof {
            // ordering: entries before p are at least as recent as x,
            // entries from p on are strictly older
            assert(forall|q: int| 0 <= q < p ==> r@[q] == prev_r[q]);
            assert(forall|q: int| p < q < r@.len() ==> r@[q] == prev_r[q - 1]);
            assert(r@[p as int]@ == xv);
            assert forall|i: int, j: int| 0 <= i < j < r@.len() implies activity_ge(
                (#[trigger] r@[i])@.last_activity,
                (#[trigger] r@[j])@.last_activity,
            ) by {
                if i < p && j == p {
                } else if i == p && j > p {
                    assert(r@[j]@ == prev_r[j - 1]@);
                    if p < prev_r.len() {
                        assert(!activity_ge(prev_r[p as int]@.last_activity, xv.last_activity));
                        lemma_activity_total(prev_r[p as int]@.last_activity, xv.last_activity);
                        if j - 1 > p {
                            lemma_activity_trans(
                                prev_r[p as int]@.last_activity,
                                prev_r[j - 1]@.last_activity,
                                xv.last_activity,
                            );
                        }
                    }
                } else if i < p && j > p {
                    assert(r@[j]@ == prev_r[j - 1]@);
                } else if i > p && j > p {
                    assert(r@[i]@ == prev_r[i - 1]@);
                    assert(r@[j]@ == prev_r[j - 1]@);
                }
            }
            // the insertion lands exactly where the sort's spec puts it
            assert(summary_views(r@) =~= summary_views(prev_r).take(p as int) + seq![xv]
                + summary_views(prev_r).skip(p as int));
            lemma_insert_desc_at(summary_views(prev_r), xv, p as int);
            assert(summary_views(items@).take(n + 1).drop_last() =~= summary_views(items@).take(
                n as int,
            ));
            assert(summary_views(items@).take(n + 1).last() == xv);
            assert(summary_views(r@) == sort_desc_spec(summary_views(items@).take(n + 1)));
            // multiset: inserting x adds exactly one x
            let rv = summary_views(r@);
            let pv = summary_views(prev_r);
            assert(rv.remove(p as int) =~= pv);
            assert(rv.remove(p as int).to_multiset() =~= rv.to_multiset().remove(rv[p as int]));
            assert(rv[p as int] == xv);
            assert(rv.to_multiset().contains(xv)) by {
                assert(rv.contains(xv));
            }
            assert(rv.to_multiset() =~= pv.to_multiset().insert(xv));
            assert(summary_views(items@).take(n + 1).drop_last() =~= summary_views(items@).take(
                n as int,
            ));
            assert(summary_views(items@).take(n + 1) =~= summary_views(items@).take(
                n as int,
            ).push(items@[n as int]@));
        }
        n = n + 1;
    }
    proof {
        assert(summary_views(items@).take(items@.len() as int) =~= summary_views(items@));
    }
    r
}

proof fn lemma_lex_total(a: Seq<char>, b: Seq<char>)
    ensures
        lex_le(a, b) || lex_le(b, a),
    decreases a.len(),
{
    if a.len() > 0 && b.len() > 0 && (a[0] as u32) == (b[0] as u32) {
        lemma_lex_total(a.skip(1), b.skip(1));
    }
}

proof fn lemma_lex_trans(a: Seq<char>, b: Seq<char>, c: Seq<char>)
    requires
        lex_le(a, b),
        lex_le(b, c),
    ensures
        lex_le(a, c),
    decreases a.len(),
{
    if a.len() > 0 && b.len() > 0 && c.len() > 0 {
        if (a[0] as u32) == (b[0] as u32) && (b[0] as u32) == (c[0] as u32) {
            lemma_lex_trans(a.skip(1), b.skip(1), c.skip(1));
        }
    }
}

proof fn lemma_activity_total(a: Option<Seq<char>>, b: Option<Seq<char>>)
    ensures
        activity_ge(a, b) || activity_ge(b, a),
{
    match (a, b) {
        (Some(x), Some(y)) => {
            lemma_lex_total(x, y);
        },
        _ => {},
    }
}

proof fn lemma_activity_trans(a: Option<Seq<char>>, b: Option<Seq<char>>, c: Option<Seq<char>>)
    requires
        activity_ge(a, b),
        activity_ge(c, a),
    ensures
        activity_ge(c, b),
{
    match (a, b, c) {
        (Some(x), Some(y), Some(z)) => {
            lemma_lex_trans(y, x, z);
        },
        _ => {},
    }
}

/// The valid summaries, most recent first, together with how many
/// invalid ones the scan filtered out.
pub fn scan_project_sessions_with_filtered(summaries: &Vec<SessionSummary>) -> (r: (
    Vec<SessionSummary>,
    usize,
))
    ensures
        summary_views(r.0@) == sort_desc_spec(
            summary_views(summaries@).filter(|s: SummaryView| valid_summary(s)),
        ),
        summary_views(r.0@).to_multiset() == summary_views(summaries@).filter(
            |s: SummaryView| valid_summary(s),
        ).to_multiset(),
        forall|i: int, j: int| 0 <= i < j < r.0@.len() ==> activity_ge(
            (#[trigger] r.0@[i])@.last_activity,
            (#[trigger] r.0@[j])@.last_activity,
        ),
        r.1 == summaries@.len() - r.0@.len(),
{
    let ghost pred = |s: SummaryView| valid_summary(s);
    let ghost sv = summary_views(summaries@);
    let mut valid: Vec<SessionSummary> = Vec::new();
    let mut i: usize = 0;
    proof {
        crate::text::lemma_filter_empty::<SummaryView>(pred);
        assert(sv.take(0) =~= Seq::<SummaryView>::empty());
        assert(summary_views(valid@) =~= sv.take(0).filter(pred));
    }
    while i < summaries.len()
        invariant
            sv == summary_views(summaries@),
            i <= sv.len(),
            pred == (|s: SummaryView| valid_summary(s)),
            summary_views(valid@) == sv.take(i as int).filter(pred),
            valid@.len() <= i,
        decreases sv.len() - i,
    {
        proof {
            crate::text::lemma_filter_take_step(sv, i as int, pred);
        }
        if is_valid_session_summary(&summaries[i]) {
            let c = clone_summary(&summaries[i]);
            valid.push(c);
            proof {
                assert(summary_views(valid@) =~= summary_views(valid@.drop_last()).push(
                    sv[i as int],
                ));
            }
        } else {
            proof {
                assert(!pred(sv[i as int]));
            }
        }
        i = i + 1;
    }
    proof {
        assert(sv.take(sv.len() as int) =~= sv);
        assert(summary_views(valid@).len() == valid@.len());
    }
    let filtered_count = summaries.len() - valid.len();
    let sorted = sort_by_activity(&valid);
    proof {
        broadcast use vstd::seq_lib::group_to_multiset_ensures;

        assert(summary_views(sorted@).len() == summary_views(sorted@).to_multiset().len());
        assert(summary_views(valid@).len() == summary_views(valid@).to_multiset().len());
        assert(summary_views(sorted@).len() == sorted@.len());
    }
    (sorted, filtered_count)
}

/// The valid summaries, most recent first.
pub fn scan_project_sessions(summaries: &Vec<SessionSummary>) -> (r: Vec<SessionSummary>)
    ensures
        summary_views(r@) == sort_desc_spec(
            summary_views(summaries@).filter(|s: SummaryView| valid_summary(s)),
        ),
        summary_views(r@).to_multiset() == summary_views(summaries@).filter(
            |s: SummaryView| valid_summary(s),
        ).to_multiset(),
        forall|i: int, j: int| 0 <= i < j < r@.len() ==> activity_ge(
            (#[trigger] r@[i])@.last_activity,
            (#[trigger] r@[j])@.last_activity,
        ),
{
    let (sessions, _) = scan_project_sessions_with_filtered(summaries);
    sessions
}

/// The summaries the listing filters out, in scan order: candidates
/// for cleanup.
pub fn get_filtered_sessions(summaries: &Vec<SessionSummary>) -> (r: Vec<SessionSummary>)
    ensures
        summary_views(r@) == summary_views(summaries@).filter(
            |s: SummaryView| !valid_summary(s),
        ),
{
    let ghost pred = |s: SummaryView| !valid_summary(s);
    let ghost sv = summary_views(summaries@);
    let mut out: Vec<SessionSummary> = Vec::new();
    let mut i: usize = 0;
    proof {
        crate::text::lemma_filter_empty::<SummaryView>(pred);
        assert(sv.take(0) =~= Seq::<SummaryView>::empty());
        assert(summary_views(out@) =~= sv.take(0).filter(pred));
    }
    while i < summaries.len()
        invariant
            sv == summary_views(summaries@),
            i <= sv.len(),
            pred == (|s: SummaryView| !valid_summary(s)),
            summary_views(out@) == sv.take(i as int).filter(pred),
        decreases sv.len() - i,
    {
        proof {
            crate::text::lemma_filter_take_step(sv, i as int, pred);
        }
        if !is_valid_session_summary(&summaries[i]) {
            let c = clone_summary(&summaries[i]);
            out.push(c);
            proof {
                assert(summary_views(out@) =~= summary_views(out@.drop_last()).push(sv[i as int]));
            }
        } else {
            proof {
                assert(!pred(sv[i as int]));
            }
        }
        i = i + 1;
    }
    proof {
        assert(sv.take(sv.len() as int) =~= sv);
    }
    out
}

// ---------------------------------------------------------------------
// Search.
// ---------------------------------------------------------------------

/// The lowercase form of a character sequence.
pub uninterp spec fn lower_of(s: Seq<char>) -> Seq<char>;

/// Relies on str::to_lowercase: the result depends on the characters
/// alone, and an empty string stays empty.
#[verifier::external_body]
pub fn to_lowercase_string(s: &str) -> (r: String)
    ensures
        r@ == lower_of(s@),
        s@.len() == 0 ==> r@.len() == 0,
{
    s.to_lowercase()
}

/// The snippet shown for a search hit: the text flattened when it fits,
/// else a window of `max_len` characters centered on the match at
/// `match_pos`, with ellipses marking cut ends.
pub open spec fn snippet_spec(text: Seq<char>, match_pos: int, max_len: int) -> Seq<char> {
    let flat = text.map_values(|c: char| flatten_char(c));
    if text.len() <= max_len {
        flat
    } else {
        let half = max_len / 2;
        let start0 = if match_pos > half {
            match_pos - half
        } else {
            0
        };
        let end = if start0 + max_len < text.len() {
            start0 + max_len
        } else {
            text.len() as int
        };
        let start1 = if end == text.len() && end - max_len > 0 {
            end - max_len
        } else {
            start0
        };
        let start = if start1 < end {
            start1
        } else {
            end
        };
        let prefix = if start > 0 {
            seq!['.', '.', '.']
        } else {
            Seq::<char>::empty()
        };
        let suffix = if end < text.len() {
            seq!['.', '.', '.']
        } else {
            Seq::<char>::empty()
        };
        prefix + flat.subrange(start, end) + suffix
    }
}

/// Where the match sits in the lowered text: its first occurrence, or
/// the front when the lowered text does not contain the keyword.
pub open spec fn match_pos_spec(lowered: Seq<char>, keyword: Seq<char>) -> int {
    match find_spec(lowered, keyword, 0) {
        Some(j) => j,
        None => 0,
    }
}

/// Extracts a display snippet around the first match of
/// `keyword_lower` in the lowered text.
pub fn extract_match_snippet(text: &str, keyword_lower: &str, max_len: usize) -> (r: String)
    ensures
        r@ == snippet_spec(text@, match_pos_spec(lower_of(text@), keyword_lower@), max_len as int),
{
    let tv = to_chars(text);
    let lowered = to_lowercase_string(text);
    let lv = to_chars(lowered.as_str());
    let kv = to_chars(keyword_lower);
    let match_pos: usize = match find_in(&lv, &kv, 0) {
        Some(j) => j,
        None => 0,
    };
    let ghost mp = match_pos_spec(lower_of(text@), keyword_lower@);
    proof {
        assert(mp == match_pos as int);
    }
    let mut flat: Vec<char> = Vec::new();
    let mut i: usize = 0;
    proof {
        assert(text@.map_values(|c: char| flatten_char(c)).take(0) =~= Seq::<char>::empty());
    }
    while i < tv.len()
        invariant
            tv@ == text@,
            i <= tv@.len(),
            flat@ == text@.map_values(|c: char| flatten_char(c)).take(i as int),
        decreases tv@.len() - i,
    {
        let c = tv[i];
        if c == '\n' {
            flat.push(' ');
        } else {
            flat.push(c);
        }
        i = i + 1;
        proof {
            assert(flat@ =~= text@.map_values(|c: char| flatten_char(c)).take(i as int));
        }
    }
    proof {
        let m = text@.map_values(|c: char| flatten_char(c));
        assert(m.take(m.len() as int) =~= m);
    }
    if tv.len() <= max_len {
        return chars_to_string(&flat);
    }
    let half = max_len / 2;
    let start0: usize = if match_pos > half {
        match_pos - half
    } else {
        0
    };
    let total = tv.len();
    let end: usize = if start0 <= total - max_len && max_len <= total {
        if start0 + max_len < total {
            start0 + max_len
        } else {
            total
        }
    } else {
        total
    };
    proof {
        assert(end as int == ({
            let e = if start0 as int + max_len < text@.len() {
                start0 as int + max_len
            } else {
                text@.len() as int
            };
            e
        }));
    }
    let start1: usize = if end == total && end > max_len {
        end - max_len
    } else {
        start0
    };
    let start: usize = if start1 < end {
        start1
    } else {
        end
    };
    let piece = sub_vec(&flat, start, end);
    let mut out = String::new();
    if start > 0 {
        out.append("...");
    }
    let mid = chars_to_string(&piece);
    out.append(mid.as_str());
    if end < total {
        out.append("...");
    }
    proof {
        reveal_strlit("...");
        assert(out@ =~= snippet_spec(text@, mp, max_len as int));
    }
    out
}


/// The search hits of one session: for every user entry whose lowered
/// text contains the (already lowered) keyword, a display snippet
/// around the first match.
pub open spec fn search_snippets(entries: Seq<EntryView>, kw: Seq<char>, max_len: int) -> Seq<
    Seq<char>,
>
    decreases entries.len(),
{
    if entries.len() == 0 {
        Seq::empty()
    } else {
        let rest = search_snippets(entries.skip(1), kw, max_len);
        let e = entries[0];
        if e.entry_type == Some("user"@) && e.text is Some && contains_seq(
            lower_of(e.text->Some_0),
            kw,
        ) {
            seq![
                snippet_spec(
                    e.text->Some_0,
                    match_pos_spec(lower_of(e.text->Some_0), kw),
                    max_len,
                ),
            ] + rest
        } else {
            rest
        }
    }
}

/// Collects the snippets of every user message of a session whose
/// lowered text contains the lowered keyword.
pub fn search_session(session: &ConversationSession, keyword_lower: &str, max_len: usize) -> (r:
    Vec<String>)
    ensures
        str_views(r@) == search_snippets(session@.entries, keyword_lower@, max_len as int),
{
    let ghost es = session@.entries;
    let mut r: Vec<String> = Vec::new();
    let mut i: usize = 0;
    proof {
        assert(es.skip(0) =~= es);
        assert(search_snippets(es, keyword_lower@, max_len as int) =~= str_views(r@)
            + search_snippets(es.skip(0), keyword_lower@, max_len as int));
    }
    while i < session.entries.len()
        invariant
            es == session@.entries,
            es.len() == session.entries@.len(),
            i <= es.len(),
            search_snippets(es, keyword_lower@, max_len as int) == str_views(r@)
                + search_snippets(es.skip(i as int), keyword_lower@, max_len as int),
        decreases es.len() - i,
    {
        let ghost prev = str_views(r@);
        proof {
            assert(es.skip(i as int)[0] == es[i as int]);
            assert(es.skip(i as int).skip(1) =~= es.skip(i as int + 1));
            assert(es[i as int] == session.entries@[i as int]@);
        }
        let e = &session.entries[i];
        let is_user = match &e.entry_type {
            Some(t) => str_eq(t.as_str(), "user"),
            None => false,
        };
        let mut hit = false;
        if is_user {
            if let Some(text) = &e.text {
                let lowered = to_lowercase_string(text.as_str());
                let lv = to_chars(lowered.as_str());
                let kv = to_chars(keyword_lower);
                if contains_exec(&lv, &kv) {
                    hit = true;
                    let snippet = extract_match_snippet(text.as_str(), keyword_lower, max_len);
                    r.push(snippet);
                    proof {
                        assert(str_views(r@) =~= prev.push(
                            snippet_spec(
                                es[i as int].text->Some_0,
                                match_pos_spec(
                                    lower_of(es[i as int].text->Some_0),
                                    keyword_lower@,
                                ),
                                max_len as int,
                            ),
                        ));
                        assert(str_views(r@) + search_snippets(
                            es.skip(i as int + 1),
                            keyword_lower@,
                            max_len as int,
                        ) =~= prev + search_snippets(
                            es.skip(i as int),
                            keyword_lower@,
                            max_len as int,
                        ));
                    }
                }
            }
        }
        if !hit {
            proof {
                assert(search_snippets(es.skip(i as int), keyword_lower@, max_len as int)
                    == search_snippets(es.skip(i as int + 1), keyword_lower@, max_len as int));
            }
        }
        i = i + 1;
    }
    proof {
        assert(es.skip(es.len() as int) =~= Seq::<EntryView>::empty());
        assert(str_views(r@) =~= search_snippets(es, keyword_lower@, max_len as int));
    }
    r
}

} // verus!
