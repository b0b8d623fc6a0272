//! The three append-only logs (users, logins, scores), their line formats,
//! and the full scans that read them back.
use vstd::prelude::*;

use crate::text::{
    decimal_of, decimal_text, fields_of, is_white_space, parse_u32, parsed_u32, split_commas,
    trim_text, trimmed, views_of,
};

verus! {

/// `initials,password`
pub open spec fn user_line_of(initials: Seq<char>, password: Seq<char>) -> Seq<char> {
    initials + seq![','] + password
}

/// `initials,timestamp`
pub open spec fn login_line_of(initials: Seq<char>, timestamp: Seq<char>) -> Seq<char> {
    initials + seq![','] + timestamp
}

/// `initials,guess_count,timestamp`
pub open spec fn score_line_of(initials: Seq<char>, guess_count: u32, timestamp: Seq<char>) -> Seq<
    char,
> {
    initials + seq![','] + decimal_of(guess_count as nat) + seq![','] + timestamp
}

/// A user line read back: exactly two fields once the line is trimmed.
pub open spec fn parsed_user(line: Seq<char>) -> Option<(Seq<char>, Seq<char>)> {
    let f = fields_of(trimmed(line));
    if f.len() == 2 {
        Some((f[0], f[1]))
    } else {
        None
    }
}

/// A score line read back: exactly three fields once the line is trimmed, the
/// second a `u32`.
pub open spec fn parsed_score(line: Seq<char>) -> Option<(Seq<char>, u32, Seq<char>)> {
    let f = fields_of(trimmed(line));
    if f.len() == 3 && parsed_u32(f[1]) is Some {
        Some((f[0], parsed_u32(f[1])->0, f[2]))
    } else {
        None
    }
}

/// The initials-to-password mapping that a user log holds: malformed lines
/// are skipped, and a later line for the same initials wins.
pub open spec fn users_of(lines: Seq<Seq<char>>) -> Map<Seq<char>, Seq<char>>
    decreases lines.len(),
{
    if lines.len() == 0 {
        Map::empty()
    } else {
        let front = users_of(lines.drop_last());
        match parsed_user(lines.last()) {
            Some(u) => front.insert(u.0, u.1),
            None => front,
        }
    }
}

/// The score records that a score log holds, in log order, malformed lines
/// skipped.
pub open spec fn scores_of(lines: Seq<Seq<char>>) -> Seq<(Seq<char>, u32, Seq<char>)>
    decreases lines.len(),
{
    if lines.len() == 0 {
        Seq::empty()
    } else {
        let front = scores_of(lines.drop_last());
        match parsed_score(lines.last()) {
            Some(s) => front.push(s),
            None => front,
        }
    }
}

/// A timestamp that a log line can carry and give back: no comma, and no
/// whitespace at its end.
pub open spec fn plain_stamp(ts: Seq<char>) -> bool {
    !ts.contains(',') && (ts.len() > 0 ==> !is_white_space(ts.last()))
}

/// A name that a log line gives back unchanged: no comma, and no whitespace
/// at its start.
pub open spec fn plain_name(name: Seq<char>) -> bool {
    !name.contains(',') && (name.len() > 0 ==> !is_white_space(name[0]))
}

/// Relies on chrono's `Utc::now` and `DateTime::to_rfc3339`: the current UTC
/// time written as RFC 3339 text. Which time depends on the clock; every such
/// text is non-empty and made of digits and `-`, `T`, `:`, `.`, `+`, so it
/// holds no comma and no whitespace.
#[verifier::external_body]
pub(crate) fn now_rfc3339() -> (r: String)
    ensures
        r@.len() > 0,
        plain_stamp(r@),
{
    chrono::Utc::now().to_rfc3339()
}

/// Records a login of `initials` at the current time, and returns that time.
pub fn update_last_login(store: &mut RecordStore, initials: &str) -> (timestamp: String)
    ensures
        timestamp@.len() > 0,
        plain_stamp(timestamp@),
        final(store).login_log() == old(store).login_log().push(
            login_line_of(initials@, timestamp@),
        ),
        final(store).user_log() == old(store).user_log(),
        final(store).score_log() == old(store).score_log(),
{
    let timestamp = now_rfc3339();
    store.append_login(initials, timestamp.as_str());
    timestamp
}

/// One completed round: who played, in how many guesses, and when.
#[derive(Clone, Debug, PartialEq, Eq)]
pub struct ScoreRecord {
    pub initials: String,
    pub guess_count: u32,
    pub timestamp: String,
}

impl View for ScoreRecord {
    type V = (Seq<char>, u32, Seq<char>);

    open spec fn view(&self) -> (Seq<char>, u32, Seq<char>) {
        (self.initials@, self.guess_count, self.timestamp@)
    }
}

impl ScoreRecord {
    pub fn copied(&self) -> (r: ScoreRecord)
        ensures
            r@ == self@,
    {
        ScoreRecord {
            initials: self.initials.clone(),
            guess_count: self.guess_count,
            timestamp: self.timestamp.clone(),
        }
    }
}

pub open spec fn records_view(v: Seq<ScoreRecord>) -> Seq<(Seq<char>, u32, Seq<char>)> {
    v.map_values(|r: ScoreRecord| r@)
}

pub fn parse_user_line(line: &str) -> (r: Option<(String, String)>)
    ensures
        match r {
            Some(u) => parsed_user(line@) == Some((u.0@, u.1@)),
            None => parsed_user(line@) is None,
        },
{
    let mut f = split_commas(trim_text(line));
    if f.len() == 2 {
        let password = f.pop().unwrap();
        let initials = f.pop().unwrap();
        Some((initials, password))
    } else {
        None
    }
}

pub fn parse_score_line(line: &str) -> (r: Option<ScoreRecord>)
    ensures
        match r {
            Some(s) => parsed_score(line@) == Some(s@),
            None => parsed_score(line@) is None,
        },
{
    let mut f = split_commas(trim_text(line));
    if f.len() == 3 {
        match parse_u32(f[1].as_str()) {
            Some(guess_count) => {
                let timestamp = f.pop().unwrap();
                let _count = f.pop();
                let initials = f.pop().unwrap();
                Some(ScoreRecord { initials, guess_count, timestamp })
            },
            None => None,
        }
    } else {
        None
    }
}

/// The initials and passwords that a user log holds; for each initials the
/// pair that came last counts.
pub struct UserTable {
    pairs: Vec<(String, String)>,
}

pub open spec fn pairs_view(v: Seq<(String, String)>) -> Seq<(Seq<char>, Seq<char>)> {
    v.map_values(|p: (String, String)| (p.0@, p.1@))
}

/// The mapping that a list of pairs makes when inserted in order.
pub open spec fn pairs_map(s: Seq<(Seq<char>, Seq<char>)>) -> Map<Seq<char>, Seq<char>>
    decreases s.len(),
{
    if s.len() == 0 {
        Map::empty()
    } else {
        pairs_map(s.drop_last()).insert(s.last().0, s.last().1)
    }
}

proof fn lemma_pairs_map_last(s: Seq<(Seq<char>, Seq<char>)>, k: Seq<char>, j: int)
    requires
        0 <= j <= s.len(),
        forall|m: int| j <= m < s.len() ==> (#[trigger] s[m]).0 != k,
    ensures
        pairs_map(s).contains_key(k) == pairs_map(s.subrange(0, j)).contains_key(k),
        pairs_map(s).contains_key(k) ==> pairs_map(s)[k] == pairs_map(s.subrange(0, j))[k],
    decreases s.len() - j,
{
    if j < s.len() {
        let t = s.drop_last();
        assert(forall|m: int| j <= m < t.len() ==> (#[trigger] t[m]) == s[m]);
        lemma_pairs_map_last(t, k, j);
        assert(t.subrange(0, j) =~= s.subrange(0, j));
    } else {
        assert(s.subrange(0, j) =~= s);
    }
}

impl View for UserTable {
    type V = Map<Seq<char>, Seq<char>>;

    closed spec fn view(&self) -> Map<Seq<char>, Seq<char>> {
        pairs_map(pairs_view(self.pairs@))
    }
}

impl UserTable {
    pub fn new() -> (r: UserTable)
        ensures
            r@ == Map::<Seq<char>, Seq<char>>::empty(),
    {
        let r = UserTable { pairs: Vec::new() };
        assert(pairs_view(r.pairs@) =~= Seq::empty());
        r
    }

    /// Sets the password of `initials`, replacing any earlier one.
    pub fn insert(&mut self, initials: String, password: String)
        ensures
            final(self)@ == old(self)@.insert(initials@, password@),
    {
        let ghost before = self.pairs@;
        self.pairs.push((initials, password));
        assert(pairs_view(self.pairs@).drop_last() =~= pairs_view(before));
    }

    /// The password stored for `initials`, if any.
    pub fn lookup(&self, initials: &str) -> (r: Option<&String>)
        ensures
            match r {
                Some(p) => self@.contains_key(initials@) && self@[initials@] == p@,
                None => !self@.contains_key(initials@),
            },
    {
        let ghost s = pairs_view(self.pairs@);
        let key = String::from_str(initials);
        let mut j: usize = self.pairs.len();
        while j > 0
            invariant
                j <= self.pairs@.len(),
                s == pairs_view(self.pairs@),
                key@ == initials@,
                forall|m: int| j <= m < s.len() ==> (#[trigger] s[m]).0 != key@,
            decreases j,
        {
            if self.pairs[j - 1].0 == key {
                proof {
                    lemma_pairs_map_last(s, key@, j as int);
                    assert(s.subrange(0, j as int).drop_last() =~= s.subrange(0, j - 1));
                }
                return Some(&self.pairs[j - 1].1);
            }
            j = j - 1;
        }
        proof {
            lemma_pairs_map_last(s, key@, 0);
        }
        None
    }
}

/// The three logs, each a sequence of lines in the order they were appended.
pub struct RecordStore {
    pub users: Vec<String>,
    pub logins: Vec<String>,
    pub scores: Vec<String>,
}

impl RecordStore {
    pub open spec fn user_log(&self) -> Seq<Seq<char>> {
        views_of(self.users@)
    }

    pub open spec fn login_log(&self) -> Seq<Seq<char>> {
        views_of(self.logins@)
    }

    pub open spec fn score_log(&self) -> Seq<Seq<char>> {
        views_of(self.scores@)
    }

    pub fn new() -> (r: RecordStore)
        ensures
            r.user_log() == Seq::<Seq<char>>::empty(),
            r.login_log() == Seq::<Seq<char>>::empty(),
            r.score_log() == Seq::<Seq<char>>::empty(),
    {
        let r = RecordStore { users: Vec::new(), logins: Vec::new(), scores: Vec::new() };
        assert(r.user_log() =~= Seq::empty());
        assert(r.login_log() =~= Seq::empty());
        assert(r.score_log() =~= Seq::empty());
        r
    }

    /// Appends `initials,password` to the user log and returns that line.
    pub fn append_user(&mut self, initials: &str, password: &str) -> (line: String)
        ensures
            line@ == user_line_of(initials@, password@),
            final(self).user_log() == old(self).user_log().push(line@),
            final(self).login_log() == old(self).login_log(),
            final(self).score_log() == old(self).score_log(),
    {
        proof {
            reveal_strlit(",");
        }
        let line = String::from_str(initials).concat(",").concat(password);
        assert(line@ =~= user_line_of(initials@, password@));
        self.users.push(line.clone());
        assert(views_of(self.users@) =~= old(self).user_log().push(line@));
        line
    }

    /// Appends `initials,timestamp` to the login log and returns that line.
    pub fn append_login(&mut self, initials: &str, timestamp: &str) -> (line: String)
        ensures
            line@ == login_line_of(initials@, timestamp@),
            final(self).login_log() == old(self).login_log().push(line@),
            final(self).user_log() == old(self).user_log(),
            final(self).score_log() == old(self).score_log(),
    {
        proof {
            reveal_strlit(",");
        }
        let line = String::from_str(initials).concat(",").concat(timestamp);
        assert(line@ =~= login_line_of(initials@, timestamp@));
        self.logins.push(line.clone());
        assert(views_of(self.logins@) =~= old(self).login_log().push(line@));
        line
    }

    /// Appends `initials,guess_count,timestamp` to the score log and returns
    /// that line.
    pub fn append_score(&mut self, initials: &str, guess_count: u32, timestamp: &str) -> (line:
        String)
        ensures
            line@ == score_line_of(initials@, guess_count, timestamp@),
            final(self).score_log() == old(self).score_log().push(line@),
            final(self).user_log() == old(self).user_log(),
            final(self).login_log() == old(self).login_log(),
    {
        proof {
            reveal_strlit(",");
        }
        let digits = decimal_text(guess_count);
        let line = String::from_str(initials).concat(",").concat(digits.as_str()).concat(
            ",",
        ).concat(timestamp);
        assert(line@ =~= score_line_of(initials@, guess_count, timestamp@));
        self.scores.push(line.clone());
        assert(views_of(self.scores@) =~= old(self).score_log().push(line@));
        line
    }

    /// The initials-to-password mapping of the user log.
    pub fn load_users(&self) -> (r: UserTable)
        ensures
            r@ == users_of(self.user_log()),
    {
        let mut table = UserTable::new();
        let mut k: usize = 0;
        while k < self.users.len()
            invariant
                k <= self.users@.len(),
                table@ == users_of(self.user_log().subrange(0, k as int)),
            decreases self.users@.len() - k,
        {
            let ghost front = self.user_log().subrange(0, k as int);
            let ghost next = self.user_log().subrange(0, k + 1);
            assert(next.drop_last() =~= front);
            assert(next.last() == self.users@[k as int]@);
            match parse_user_line(self.users[k].as_str()) {
                Some(u) => {
                    table.insert(u.0, u.1);
                },
                None => {},
            }
            k = k + 1;
        }
        assert(self.user_log().subrange(0, k as int) =~= self.user_log());
        table
    }

    /// The score records of the score log, in log order.
    pub fn load_scores(&self) -> (r: Vec<ScoreRecord>)
        ensures
            records_view(r@) == scores_of(self.score_log()),
    {
        let mut out: Vec<ScoreRecord> = Vec::new();
        let mut k: usize = 0;
        while k < self.scores.len()
            invariant
                k <= self.scores@.len(),
                records_view(out@) == scores_of(self.score_log().subrange(0, k as int)),
            decreases self.scores@.len() - k,
        {
            let ghost front = self.score_log().subrange(0, k as int);
            let ghost next = self.score_log().subrange(0, k + 1);
            assert(next.drop_last() =~= front);
            assert(next.last() == self.scores@[k as int]@);
            match parse_score_line(self.scores[k].as_str()) {
                Some(s) => {
                    let ghost before = out@;
                    out.push(s);
                    assert(records_view(out@) =~= records_view(before).push(s@));
                },
                None => {},
            }
            k = k + 1;
        }
        assert(self.score_log().subrange(0, k as int) =~= self.score_log());
        out
    }
}

proof fn lemma_scores_of_concat(a: Seq<Seq<char>>, b: Seq<Seq<char>>)
    ensures
        scores_of(a + b) == scores_of(a) + scores_of(b),
    decreases b.len(),
{
    if b.len() == 0 {
        assert(a + b =~= a);
        assert(scores_of(a) + scores_of(b) =~= scores_of(a));
    } else {
        lemma_scores_of_concat(a, b.drop_last());
        assert((a + b).drop_last() =~= a + b.drop_last());
        assert((a + b).last() == b.last());
        match parsed_score(b.last()) {
            Some(r) => {
                assert(scores_of(a) + scores_of(b.drop_last()).push(r) =~= (scores_of(a)
                    + scores_of(b.drop_last())).push(r));
            },
            None => {},
        }
    }
}

/// A malformed score line drops out of the score log's records, and the
/// records before and after it are read as if it were not there.
pub proof fn lemma_malformed_score_line_skipped(
    before: Seq<Seq<char>>,
    line: Seq<char>,
    after: Seq<Seq<char>>,
)
    requires
        parsed_score(line) is None,
    ensures
        scores_of(before.push(line) + after) == scores_of(before + after),
        scores_of(before.push(line) + after) == scores_of(before) + scores_of(after),
{
    lemma_scores_of_concat(before.push(line), after);
    lemma_scores_of_concat(before, after);
    assert(before.push(line).drop_last() =~= before);
}

/// A malformed user line drops out of the user mapping, and the lines before
/// and after it are read as if it were not there.
pub proof fn lemma_malformed_user_line_skipped(
    before: Seq<Seq<char>>,
    line: Seq<char>,
    after: Seq<Seq<char>>,
)
    requires
        parsed_user(line) is None,
    ensures
        users_of(before.push(line) + after) == users_of(before + after),
    decreases after.len(),
{
    if after.len() == 0 {
        assert(before.push(line) + after =~= before.push(line));
        assert(before + after =~= before);
        assert(before.push(line).drop_last() =~= before);
    } else {
        lemma_malformed_user_line_skipped(before, line, after.drop_last());
        assert((before.push(line) + after).drop_last() =~= before.push(line) + after.drop_last());
        assert((before + after).drop_last() =~= before + after.drop_last());
        assert((before.push(line) + after).last() == after.last());
        assert((before + after).last() == after.last());
    }
}

} // verus!
