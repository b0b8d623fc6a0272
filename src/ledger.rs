//! The score ledger: recording finished rounds, a player's personal best, and
//! the leaderboard ranked by guess count.
use vstd::prelude::*;

use crate::store::{
    now_rfc3339, parsed_score, plain_name, plain_stamp, records_view, score_line_of, scores_of, RecordStore, ScoreRecord,
};
use crate::text::{
    decimal_of, fields_of, lemma_decimal_reads_back,
    lemma_fields_join, lemma_fields_single, lemma_trimmed_unchanged,
    parsed_u32, unsigned_digits,
};

verus! {

/// A score record as plain values: initials, guess count, timestamp.
pub type ScoreView = (Seq<char>, u32, Seq<char>);

/// The number of entries the leaderboard shows.
pub const LEADERBOARD_SIZE: usize = 10;

/// The smallest guess count among the records of `user`, if there is one.
pub open spec fn best_of(records: Seq<ScoreView>, user: Seq<char>) -> Option<u32>
    decreases records.len(),
{
    if records.len() == 0 {
        None
    } else {
        let front = best_of(records.drop_last(), user);
        let r = records.last();
        if r.0 != user {
            front
        } else {
            match front {
                Some(b) => Some(if r.1 < b { r.1 } else { b }),
                None => Some(r.1),
            }
        }
    }
}

/// `t` with `x` placed after every record whose count is not above its own,
/// and before the rest.
pub open spec fn insert_by_count(t: Seq<ScoreView>, x: ScoreView) -> Seq<ScoreView>
    decreases t.len(),
{
    if t.len() == 0 {
        seq![x]
    } else if t.last().1 > x.1 {
        insert_by_count(t.drop_last(), x).push(t.last())
    } else {
        t.push(x)
    }
}

/// `s` ordered by ascending guess count, records with equal counts kept in
/// their order in `s`.
pub open spec fn sort_by_count(s: Seq<ScoreView>) -> Seq<ScoreView>
    decreases s.len(),
{
    if s.len() == 0 {
        Seq::empty()
    } else {
        insert_by_count(sort_by_count(s.drop_last()), s.last())
    }
}

/// The first `limit` records of `s` ranked by guess count.
pub open spec fn ranked(s: Seq<ScoreView>, limit: nat) -> Seq<ScoreView> {
    let sorted = sort_by_count(s);
    if limit < sorted.len() {
        sorted.take(limit as int)
    } else {
        sorted
    }
}

pub open spec fn ascending(s: Seq<ScoreView>) -> bool {
    forall|i: int, j: int| 0 <= i < j < s.len() ==> (#[trigger] s[i]).1 <= (#[trigger] s[j]).1
}

/// The records of `s` whose guess count is `k`, in their order in `s`.
pub open spec fn with_count(s: Seq<ScoreView>, k: u32) -> Seq<ScoreView>
    decreases s.len(),
{
    if s.len() == 0 {
        Seq::empty()
    } else if s.last().1 == k {
        with_count(s.drop_last(), k).push(s.last())
    } else {
        with_count(s.drop_last(), k)
    }
}

/// The smallest of a non-empty list of counts.
pub open spec fn min_count(counts: Seq<u32>) -> u32
    decreases counts.len(),
{
    if counts.len() <= 1 {
        counts[0]
    } else {
        let m = min_count(counts.drop_last());
        if counts.last() < m {
            counts.last()
        } else {
            m
        }
    }
}

/// The score lines of `user` for the given counts and timestamps, in order.
pub open spec fn score_lines(user: Seq<char>, counts: Seq<u32>, stamps: Seq<Seq<char>>) -> Seq<
    Seq<char>,
>
    decreases counts.len(),
{
    if counts.len() == 0 || stamps.len() == 0 {
        Seq::empty()
    } else {
        score_lines(user, counts.drop_last(), stamps.drop_last()).push(
            score_line_of(user, counts.last(), stamps.last()),
        )
    }
}

/// The smallest guess count among `records` for `user`.
pub fn personal_best(records: &Vec<ScoreRecord>, user: &str) -> (r: Option<u32>)
    ensures
        r == best_of(records_view(records@), user@),
{
    let key = String::from_str(user);
    let mut best: Option<u32> = None;
    let mut k: usize = 0;
    while k < records.len()
        invariant
            k <= records@.len(),
            key@ == user@,
            best == best_of(records_view(records@).subrange(0, k as int), user@),
        decreases records@.len() - k,
    {
        let ghost next = records_view(records@).subrange(0, k + 1);
        assert(next.drop_last() =~= records_view(records@).subrange(0, k as int));
        let r = &records[k];
        if r.initials == key {
            best = match best {
                Some(b) => Some(if r.guess_count < b { r.guess_count } else { b }),
                None => Some(r.guess_count),
            };
        }
        k = k + 1;
    }
    assert(records_view(records@).subrange(0, k as int) =~= records_view(records@));
    best
}

/// The personal best of `username` over the whole score log.
pub fn get_personal_best(store: &RecordStore, username: &str) -> (r: Option<u32>)
    ensures
        r == best_of(scores_of(store.score_log()), username@),
{
    let records = store.load_scores();
    personal_best(&records, username)
}

/// Records a finished round of `username` at the current time, and returns
/// that time.
pub fn save_score(store: &mut RecordStore, username: &str, guesses: u32) -> (timestamp: String)
    ensures
        timestamp@.len() > 0,
        plain_stamp(timestamp@),
        final(store).score_log() == old(store).score_log().push(
            score_line_of(username@, guesses, timestamp@),
        ),
        final(store).user_log() == old(store).user_log(),
        final(store).login_log() == old(store).login_log(),
{
    let timestamp = now_rfc3339();
    store.append_score(username, guesses, timestamp.as_str());
    timestamp
}

proof fn lemma_insert_at(t: Seq<ScoreView>, x: ScoreView, j: int)
    requires
        0 <= j <= t.len(),
        forall|m: int| j <= m < t.len() ==> (#[trigger] t[m]).1 > x.1,
        j == 0 || t[j - 1].1 <= x.1,
    ensures
        insert_by_count(t, x) == t.insert(j, x),
    decreases t.len(),
{
    if t.len() == 0 {
        assert(t.insert(j, x) =~= seq![x]);
    } else if j == t.len() {
        assert(t.insert(j, x) =~= t.push(x));
    } else {
        let f = t.drop_last();
        assert(forall|m: int| j <= m < f.len() ==> (#[trigger] f[m]) == t[m]);
        lemma_insert_at(f, x, j);
        assert(t.insert(j, x) =~= f.insert(j, x).push(t.last()));
    }
}

proof fn lemma_insert_bounded(t: Seq<ScoreView>, x: ScoreView, b: u32)
    requires
        forall|i: int| 0 <= i < t.len() ==> (#[trigger] t[i]).1 <= b,
        x.1 <= b,
    ensures
        insert_by_count(t, x).len() == t.len() + 1,
        forall|i: int|
            0 <= i < insert_by_count(t, x).len() ==> (#[trigger] insert_by_count(t, x)[i]).1 <= b,
    decreases t.len(),
{
    if t.len() > 0 && t.last().1 > x.1 {
        let f = t.drop_last();
        assert(forall|i: int| 0 <= i < f.len() ==> (#[trigger] f[i]) == t[i]);
        lemma_insert_bounded(f, x, b);
    }
}

proof fn lemma_insert_ascending(t: Seq<ScoreView>, x: ScoreView)
    requires
        ascending(t),
    ensures
        ascending(insert_by_count(t, x)),
        insert_by_count(t, x).len() == t.len() + 1,
    decreases t.len(),
{
    if t.len() > 0 && t.last().1 > x.1 {
        let f = t.drop_last();
        assert(forall|i: int| 0 <= i < f.len() ==> (#[trigger] f[i]) == t[i]);
        lemma_insert_ascending(f, x);
        assert(forall|i: int| 0 <= i < f.len() ==> (#[trigger] f[i]).1 <= t.last().1) by {
            assert forall|i: int| 0 <= i < f.len() implies (#[trigger] f[i]).1 <= t.last().1 by {
                assert(t[i].1 <= t[t.len() - 1].1);
            }
        }
        lemma_insert_bounded(f, x, t.last().1);
    } else if t.len() > 0 {
        assert forall|i: int, j: int|
            0 <= i < j < t.push(x).len() implies (#[trigger] t.push(x)[i]).1 <= (#[trigger] t.push(
            x,
        )[j]).1 by {
            if j == t.len() {
                assert(t[i].1 <= t[t.len() - 1].1 || i == t.len() - 1);
            }
        }
    }
}

proof fn lemma_insert_with_count(t: Seq<ScoreView>, x: ScoreView, k: u32)
    ensures
        with_count(insert_by_count(t, x), k) == if x.1 == k {
            with_count(t, k).push(x)
        } else {
            with_count(t, k)
        },
    decreases t.len(),
{
    if t.len() == 0 {
        assert(seq![x].drop_last() =~= Seq::<ScoreView>::empty());
        assert(with_count(t, k) =~= Seq::<ScoreView>::empty());
        assert(insert_by_count(t, x) == seq![x]);
        assert(seq![x].last() == x);
        let e = Seq::<ScoreView>::empty();
        assert(with_count(seq![x], k) == if x.1 == k {
            with_count(e, k).push(x)
        } else {
            with_count(e, k)
        });
    } else if t.last().1 > x.1 {
        let f = t.drop_last();
        let l = t.last();
        lemma_insert_with_count(f, x, k);
        let ins = insert_by_count(f, x);
        assert(insert_by_count(t, x) == ins.push(l));
        assert(ins.push(l).drop_last() =~= ins);
        assert(ins.push(l).last() == l);
        assert(with_count(ins.push(l), k) == if l.1 == k {
            with_count(ins, k).push(l)
        } else {
            with_count(ins, k)
        });
        assert(with_count(t, k) == if l.1 == k {
            with_count(f, k).push(l)
        } else {
            with_count(f, k)
        });
    } else {
        assert(t.push(x).drop_last() =~= t);
        assert(t.push(x).last() == x);
        assert(insert_by_count(t, x) == t.push(x));
    }
}

/// Ranking by guess count gives an ascending sequence of the same length that
/// keeps, for each count, the records with that count in their order.
pub proof fn lemma_sort_by_count(s: Seq<ScoreView>, k: u32)
    ensures
        ascending(sort_by_count(s)),
        sort_by_count(s).len() == s.len(),
        with_count(sort_by_count(s), k) == with_count(s, k),
    decreases s.len(),
{
    if s.len() > 0 {
        lemma_sort_by_count(s.drop_last(), k);
        lemma_insert_ascending(sort_by_count(s.drop_last()), s.last());
        lemma_insert_with_count(sort_by_count(s.drop_last()), s.last(), k);
    }
}

/// Cutting a sequence short keeps, for each count, a head of its records of
/// that count.
proof fn lemma_with_count_take(t: Seq<ScoreView>, n: int, k: u32)
    requires
        0 <= n <= t.len(),
    ensures
        with_count(t.take(n), k).len() <= with_count(t, k).len(),
        with_count(t.take(n), k) == with_count(t, k).take(with_count(t.take(n), k).len() as int),
    decreases t.len(),
{
    let a = with_count(t.take(n), k);
    if n == t.len() {
        assert(t.take(n) =~= t);
        assert(a.take(a.len() as int) =~= a);
    } else {
        let f = t.drop_last();
        assert(t.take(n) =~= f.take(n));
        lemma_with_count_take(f, n, k);
        let b = with_count(f, k);
        if t.last().1 == k {
            assert(with_count(t, k) == b.push(t.last()));
            assert(b.push(t.last()).take(a.len() as int) =~= b.take(a.len() as int));
        }
    }
}

/// The leaderboard over any records is ordered by ascending guess count, holds
/// `limit` records or all of them when there are fewer, and is the head of an
/// ordering that keeps records with equal counts in the order they were
/// recorded: for each count, the leaderboard's records of that count are the
/// first records of that count in the log, in log order.
pub proof fn lemma_leaderboard_order(s: Seq<ScoreView>, limit: nat, k: u32)
    ensures
        ascending(ranked(s, limit)),
        ranked(s, limit).len() == if limit < s.len() {
            limit
        } else {
            s.len()
        },
        ranked(s, limit) == sort_by_count(s).take(ranked(s, limit).len() as int),
        with_count(sort_by_count(s), k) == with_count(s, k),
        with_count(ranked(s, limit), k).len() <= with_count(s, k).len(),
        with_count(ranked(s, limit), k) == with_count(s, k).take(
            with_count(ranked(s, limit), k).len() as int,
        ),
{
    lemma_sort_by_count(s, k);
    lemma_with_count_take(sort_by_count(s), ranked(s, limit).len() as int, k);
    assert(sort_by_count(s).take(s.len() as int) =~= sort_by_count(s));
}

/// The records of `records` ranked by ascending guess count, ties in their
/// original order, at most `limit` of them.
pub fn leaderboard(records: &Vec<ScoreRecord>, limit: usize) -> (r: Vec<ScoreRecord>)
    ensures
        records_view(r@) == ranked(records_view(records@), limit as nat),
{
    let ghost s = records_view(records@);
    let mut sorted: Vec<ScoreRecord> = Vec::new();
    let mut i: usize = 0;
    assert(s.subrange(0, 0) =~= Seq::<ScoreView>::empty());
    assert(records_view(sorted@) =~= Seq::<ScoreView>::empty());
    while i < records.len()
        invariant
            i <= records@.len(),
            s == records_view(records@),
            records_view(sorted@) == sort_by_count(s.subrange(0, i as int)),
        decreases records@.len() - i,
    {
        let x = records[i].copied();
        let ghost t = records_view(sorted@);
        let mut j: usize = sorted.len();
        while j > 0 && sorted[j - 1].guess_count > x.guess_count
            invariant
                j <= sorted@.len(),
                t == records_view(sorted@),
                forall|m: int| j <= m < t.len() ==> (#[trigger] t[m]).1 > x.guess_count,
            decreases j,
        {
            j = j - 1;
        }
        proof {
            lemma_insert_at(t, x@, j as int);
            assert(s.subrange(0, i + 1).drop_last() =~= s.subrange(0, i as int));
            assert(s.subrange(0, i + 1).last() == x@);
        }
        sorted.insert(j, x);
        assert(records_view(sorted@) =~= t.insert(j as int, x@));
        i = i + 1;
    }
    assert(s.subrange(0, i as int) =~= s);
    proof {
        lemma_sort_by_count(s, 0);
    }
    sorted.truncate(limit);
    assert(records_view(sorted@) =~= ranked(s, limit as nat));
    sorted
}

/// The calendar date that chrono reads from an RFC 3339 timestamp, written
/// `YYYY-MM-DD`, or nothing where it cannot read one.
pub uninterp spec fn calendar_date_of(timestamp: Seq<char>) -> Option<Seq<char>>;

/// Relies on chrono's `FromStr` for `DateTime<Utc>` and `DateTime::format`:
/// the timestamp read as a UTC date-time and written as `%Y-%m-%d`, or `None`
/// where it does not parse.
#[verifier::external_body]
fn calendar_date(timestamp: &str) -> (r: Option<String>)
    ensures
        match r {
            Some(d) => calendar_date_of(timestamp@) == Some(d@),
            None => calendar_date_of(timestamp@) is None,
        },
{
    match timestamp.parse::<chrono::DateTime<chrono::Utc>>() {
        Ok(dt) => Some(dt.format("%Y-%m-%d").to_string()),
        Err(_) => None,
    }
}

/// The placeholder shown for a timestamp that does not read as a date.
pub open spec fn no_date() -> Seq<char> {
    seq!['N', '/', 'A']
}

/// The date column for a timestamp: its calendar date, or `N/A`.
pub open spec fn shown_date(date: Option<Seq<char>>) -> Seq<char> {
    match date {
        Some(d) => d,
        None => no_date(),
    }
}

/// The date column for a date that chrono did or did not read.
pub fn date_column(date: Option<String>) -> (r: String)
    ensures
        r@ == shown_date(
            match date {
                Some(d) => Some(d@),
                None => None,
            },
        ),
{
    match date {
        Some(d) => d,
        None => {
            proof {
                reveal_strlit("N/A");
            }
            let r = String::from_str("N/A");
            assert(r@ =~= no_date());
            r
        },
    }
}

/// One line of the leaderboard as shown: initials, guess count, date.
#[derive(Clone, Debug, PartialEq, Eq)]
pub struct LeaderboardRow {
    pub initials: String,
    pub guess_count: u32,
    pub date: String,
}

pub open spec fn row_of(r: ScoreView) -> (Seq<char>, u32, Seq<char>) {
    (r.0, r.1, shown_date(calendar_date_of(r.2)))
}

/// The leaderboard of the score log as shown: the first `LEADERBOARD_SIZE`
/// records by ascending guess count, each with its date.
pub fn leaderboard_rows(store: &RecordStore) -> (r: Vec<LeaderboardRow>)
    ensures
        r@.len() == ranked(scores_of(store.score_log()), LEADERBOARD_SIZE as nat).len(),
        forall|i: int|
            0 <= i < r@.len() ==> ((#[trigger] r@[i]).initials@, r@[i].guess_count, r@[i].date@)
                == row_of(ranked(scores_of(store.score_log()), LEADERBOARD_SIZE as nat)[i]),
{
    let records = store.load_scores();
    let top = leaderboard(&records, LEADERBOARD_SIZE);
    let ghost t = records_view(top@);
    let mut rows: Vec<LeaderboardRow> = Vec::new();
    let mut i: usize = 0;
    while i < top.len()
        invariant
            i <= top@.len(),
            t == records_view(top@),
            rows@.len() == i,
            forall|m: int|
                0 <= m < i ==> ((#[trigger] rows@[m]).initials@, rows@[m].guess_count, rows@[
                    m
                ].date@) == row_of(t[m]),
        decreases top@.len() - i,
    {
        let r = &top[i];
        let date = date_column(calendar_date(r.timestamp.as_str()));
        rows.push(
            LeaderboardRow {
                initials: r.initials.clone(),
                guess_count: r.guess_count,
                date,
            },
        );
        i = i + 1;
    }
    rows
}

/// A score line written for a plain name, any count and a plain timestamp
/// reads back as that record.
pub proof fn lemma_score_line_reads_back(user: Seq<char>, count: u32, stamp: Seq<char>)
    requires
        plain_name(user),
        plain_stamp(stamp),
    ensures
        parsed_score(score_line_of(user, count, stamp)) == Some((user, count, stamp)),
{
    let d = decimal_of(count as nat);
    lemma_decimal_reads_back(count as nat);
    let line = score_line_of(user, count, stamp);
    let head = user + seq![','] + d;
    assert(line =~= head + seq![','] + stamp);
    if user.len() > 0 {
        assert(line[0] == user[0]);
    } else {
        assert(line[0] == ',');
    }
    if stamp.len() > 0 {
        assert(line.last() == stamp.last());
    } else {
        assert(line.last() == ',');
    }
    lemma_trimmed_unchanged(line);
    lemma_fields_join(head, stamp);
    lemma_fields_join(user, d);
    lemma_fields_single(user);
    lemma_fields_single(d);
    lemma_fields_single(stamp);
    assert(fields_of(line) =~= seq![user, d, stamp]);
    assert(unsigned_digits(d) == d);
    assert(parsed_u32(d) == Some(count));
}

/// The personal best once a count `g` is added to a best of `prev`.
pub open spec fn best_with(prev: Option<u32>, g: u32) -> u32 {
    match prev {
        Some(b) => if g < b {
            g
        } else {
            b
        },
        None => g,
    }
}

/// Appending one score line of `user` makes the personal best the smaller of
/// the earlier best and the new count; so the best never grows, and never
/// exceeds the count just recorded.
pub proof fn lemma_personal_best_after_save(
    log: Seq<Seq<char>>,
    user: Seq<char>,
    g: u32,
    stamp: Seq<char>,
)
    requires
        plain_name(user),
        plain_stamp(stamp),
    ensures
        best_of(scores_of(log.push(score_line_of(user, g, stamp))), user) == Some(
            best_with(best_of(scores_of(log), user), g),
        ),
        best_with(best_of(scores_of(log), user), g) <= g,
{
    lemma_score_line_reads_back(user, g, stamp);
    let lines = log.push(score_line_of(user, g, stamp));
    assert(lines.drop_last() =~= log);
    assert(scores_of(lines).drop_last() =~= scores_of(log));
}

/// After the score lines of a plain name `user` for a non-empty list of counts are appended
/// to a log that held no record of `user`, the personal best of `user` is the
/// smallest of those counts.
pub proof fn lemma_personal_best_of_appended(
    log: Seq<Seq<char>>,
    user: Seq<char>,
    counts: Seq<u32>,
    stamps: Seq<Seq<char>>,
)
    requires
        plain_name(user),
        counts.len() >= 1,
        stamps.len() == counts.len(),
        forall|i: int| 0 <= i < stamps.len() ==> plain_stamp(#[trigger] stamps[i]),
        best_of(scores_of(log), user) is None,
    ensures
        best_of(scores_of(log + score_lines(user, counts, stamps)), user) == Some(
            min_count(counts),
        ),
    decreases counts.len(),
{
    let lines = log + score_lines(user, counts, stamps);
    let c = counts.last();
    let ts = stamps.last();
    assert(plain_stamp(stamps[stamps.len() - 1]));
    lemma_score_line_reads_back(user, c, ts);
    let front = log + score_lines(user, counts.drop_last(), stamps.drop_last());
    assert(lines =~= front.push(score_line_of(user, c, ts)));
    assert(lines.drop_last() =~= front);
    let ghost b = best_of(scores_of(front), user);
    assert(scores_of(lines) == scores_of(front).push((user, c, ts)));
    assert(scores_of(lines).drop_last() =~= scores_of(front));
    if counts.len() == 1 {
        assert(score_lines(user, counts.drop_last(), stamps.drop_last()) =~= Seq::<
            Seq<char>,
        >::empty());
        assert(front =~= log);
    } else {
        let sd = stamps.drop_last();
        assert(forall|i: int| 0 <= i < sd.len() ==> (#[trigger] sd[i]) == stamps[i]);
        lemma_personal_best_of_appended(log, user, counts.drop_last(), sd);
    }
}

} // verus!
