//! Resolving a player from initials and password: validation, sign-in of
//! existing accounts and registration of new ones.
use vstd::prelude::*;

use crate::store::{
    login_line_of, parsed_user, plain_name, plain_stamp, update_last_login, user_line_of, users_of, RecordStore, UserTable,
};
use crate::text::{
    all_ascii_letters, ascii_letters, fields_of, is_ascii_letter, lemma_fields_join,
    lemma_fields_single, lemma_letter_not_space, lemma_trimmed_ends, lemma_trimmed_unchanged,
    lemma_trimmed_twice, to_upper, trim_text, trimmed, upper_of,
};

verus! {

/// Initials as a player types them: one to three ASCII letters, either case.
pub open spec fn valid_initials(s: Seq<char>) -> bool {
    1 <= s.len() <= 3 && all_ascii_letters(s)
}

/// The user key for an entered line: the upper-case form of its trimmed
/// text, when that form is one to three ASCII letters.
pub open spec fn normalized_initials(entered: Seq<char>) -> Option<Seq<char>> {
    let u = upper_of(trimmed(entered));
    if valid_initials(u) {
        Some(u)
    } else {
        None
    }
}

/// Whether `password` is the one stored for `initials`, compared exactly.
pub open spec fn authenticates(
    users: Map<Seq<char>, Seq<char>>,
    initials: Seq<char>,
    password: Seq<char>,
) -> bool {
    users.contains_key(initials) && users[initials] == password
}

/// Checks an entered initials line and gives its upper-case form.
pub fn normalize_initials(entered: &str) -> (r: Option<String>)
    ensures
        match r {
            Some(u) => normalized_initials(entered@) == Some(u@),
            None => normalized_initials(entered@) is None,
        },
{
    let u = to_upper(trim_text(entered));
    let n = u.as_str().unicode_len();
    if n >= 1 && n <= 3 && ascii_letters(u.as_str()) {
        Some(u)
    } else {
        None
    }
}

/// What the initials line leads to: a re-prompt, the password of an existing
/// account, or the creation of a new one.
pub enum InitialsCheck {
    Invalid,
    Existing(String),
    New(String),
}

pub fn check_initials(users: &UserTable, entered: &str) -> (r: InitialsCheck)
    ensures
        match r {
            InitialsCheck::Invalid => normalized_initials(entered@) is None,
            InitialsCheck::Existing(u) => normalized_initials(entered@) == Some(u@)
                && users@.contains_key(u@),
            InitialsCheck::New(u) => normalized_initials(entered@) == Some(u@)
                && !users@.contains_key(u@),
        },
{
    match normalize_initials(entered) {
        None => InitialsCheck::Invalid,
        Some(u) => {
            if users.lookup(u.as_str()).is_some() {
                InitialsCheck::Existing(u)
            } else {
                InitialsCheck::New(u)
            }
        },
    }
}

/// Whether the entered password line, trimmed, is the password of `initials`.
pub fn authenticate(users: &UserTable, initials: &str, entered_password: &str) -> (r: bool)
    ensures
        r == authenticates(users@, initials@, trimmed(entered_password@)),
{
    let password = String::from_str(trim_text(entered_password));
    match users.lookup(initials) {
        Some(stored) => *stored == password,
        None => false,
    }
}

/// Signs `initials` in with the entered password line. On a match the login
/// is recorded and its time returned; otherwise the store is left as it was.
pub fn sign_in(
    store: &mut RecordStore,
    users: &UserTable,
    initials: &str,
    entered_password: &str,
) -> (r: Option<String>)
    ensures
        r is Some == authenticates(users@, initials@, trimmed(entered_password@)),
        match r {
            Some(ts) => ts@.len() > 0 && plain_stamp(ts@) && final(store).login_log() == old(
                store,
            ).login_log().push(login_line_of(initials@, ts@)),
            None => final(store).login_log() == old(store).login_log(),
        },
        final(store).user_log() == old(store).user_log(),
        final(store).score_log() == old(store).score_log(),
{
    if authenticate(users, initials, entered_password) {
        Some(update_last_login(store, initials))
    } else {
        None
    }
}

/// Creates the account `initials` with the entered password line, trimmed,
/// records its first login, and returns the time of that login.
pub fn register(store: &mut RecordStore, initials: &str, entered_password: &str) -> (ts: String)
    ensures
        ts@.len() > 0,
        plain_stamp(ts@),
        final(store).user_log() == old(store).user_log().push(
            user_line_of(initials@, trimmed(entered_password@)),
        ),
        final(store).login_log() == old(store).login_log().push(login_line_of(initials@, ts@)),
        final(store).score_log() == old(store).score_log(),
{
    store.append_user(initials, trim_text(entered_password));
    update_last_login(store, initials)
}

/// A user line written for valid initials and a comma-free password reads
/// back as that pair.
pub proof fn lemma_user_line_reads_back(initials: Seq<char>, password: Seq<char>)
    requires
        valid_initials(initials),
        !password.contains(','),
        password.len() > 0 ==> !crate::text::is_white_space(password.last()),
    ensures
        parsed_user(user_line_of(initials, password)) == Some((initials, password)),
{
    let line = user_line_of(initials, password);
    assert(is_ascii_letter(initials[0]));
    lemma_letter_not_space(initials[0]);
    assert(line[0] == initials[0]);
    if password.len() > 0 {
        assert(line.last() == password.last());
    } else {
        assert(line.last() == ',');
    }
    lemma_trimmed_unchanged(line);
    assert(!initials.contains(',')) by {
        if initials.contains(',') {
            let k = choose|k: int| 0 <= k < initials.len() && initials[k] == ',';
            assert(is_ascii_letter(initials[k]));
        }
    }
    lemma_fields_join(initials, password);
    lemma_fields_single(initials);
    lemma_fields_single(password);
    assert(fields_of(line) =~= seq![initials, password]);
}

/// Valid initials are a plain name: their log lines give them back unchanged.
pub proof fn lemma_initials_are_plain(initials: Seq<char>)
    requires
        valid_initials(initials),
    ensures
        plain_name(initials),
{
    assert(is_ascii_letter(initials[0]));
    lemma_letter_not_space(initials[0]);
    assert(!initials.contains(',')) by {
        if initials.contains(',') {
            let k = choose|k: int| 0 <= k < initials.len() && initials[k] == ',';
            assert(is_ascii_letter(initials[k]));
        }
    }
}

/// Whatever is entered, an accepted key is one to three ASCII letters and is
/// the upper-case form of the entered text; whitespace around the text does
/// not change the outcome, so the same initials always give the same key.
pub proof fn lemma_initials_key(entered: Seq<char>)
    ensures
        normalized_initials(entered) == normalized_initials(trimmed(entered)),
        match normalized_initials(entered) {
            Some(u) => valid_initials(u) && u == upper_of(trimmed(entered)),
            None => !valid_initials(upper_of(trimmed(entered))),
        },
{
    lemma_trimmed_twice(entered);
}

/// After registering initials with a password line, the user log read back
/// authenticates exactly that trimmed password for them.
pub proof fn lemma_register_then_authenticate(
    log: Seq<Seq<char>>,
    initials: Seq<char>,
    entered: Seq<char>,
    other: Seq<char>,
)
    requires
        valid_initials(initials),
        !entered.contains(','),
    ensures
        authenticates(
            users_of(log.push(user_line_of(initials, trimmed(entered)))),
            initials,
            trimmed(entered),
        ),
        trimmed(other) != trimmed(entered) ==> !authenticates(
            users_of(log.push(user_line_of(initials, trimmed(entered)))),
            initials,
            trimmed(other),
        ),
{
    lemma_trimmed_ends(entered, ',');
    lemma_user_line_reads_back(initials, trimmed(entered));
    let lines = log.push(user_line_of(initials, trimmed(entered)));
    assert(lines.drop_last() =~= log);
}

} // verus!
