//! Character-level helpers: whitespace trimming, comma-separated fields,
//! unsigned decimal numbers and ASCII letters.
use vstd::prelude::*;

verus! {

/// The Unicode `White_Space` property, the set that `str::trim` strips.
pub open spec fn is_white_space(c: char) -> bool {
    let n = c as u32;
    (0x9 <= n <= 0xd) || n == 0x20 || n == 0x85 || n == 0xa0 || n == 0x1680 || (0x2000 <= n
        <= 0x200a) || n == 0x2028 || n == 0x2029 || n == 0x202f || n == 0x205f || n == 0x3000
}

pub open spec fn trim_start(s: Seq<char>) -> Seq<char>
    decreases s.len(),
{
    if s.len() > 0 && is_white_space(s[0]) {
        trim_start(s.drop_first())
    } else {
        s
    }
}

pub open spec fn trim_end(s: Seq<char>) -> Seq<char>
    decreases s.len(),
{
    if s.len() > 0 && is_white_space(s.last()) {
        trim_end(s.drop_last())
    } else {
        s
    }
}

/// `s` without its leading and trailing whitespace.
pub open spec fn trimmed(s: Seq<char>) -> Seq<char> {
    trim_end(trim_start(s))
}

pub fn white_space(c: char) -> (r: bool)
    ensures
        r == is_white_space(c),
{
    let n = c as u32;
    (0x9 <= n && n <= 0xd) || n == 0x20 || n == 0x85 || n == 0xa0 || n == 0x1680 || (0x2000 <= n
        && n <= 0x200a) || n == 0x2028 || n == 0x2029 || n == 0x202f || n == 0x205f || n == 0x3000
}

/// The text of `s` without leading and trailing whitespace.
pub fn trim_text<'a>(s: &'a str) -> (r: &'a str)
    ensures
        r@ == trimmed(s@),
{
    let n = s.unicode_len();
    let mut i: usize = 0;
    assert(s@.subrange(0, n as int) =~= s@);
    while i < n && white_space(s.get_char(i))
        invariant
            i <= n,
            n == s@.len(),
            trim_start(s@) == trim_start(s@.subrange(i as int, n as int)),
        decreases n - i,
    {
        assert(s@.subrange(i as int, n as int).drop_first() =~= s@.subrange(i + 1, n as int));
        i = i + 1;
    }
    let mut j: usize = n;
    while j > i && white_space(s.get_char(j - 1))
        invariant
            i <= j <= n,
            n == s@.len(),
            trim_start(s@) == s@.subrange(i as int, n as int),
            trimmed(s@) == trim_end(s@.subrange(i as int, j as int)),
        decreases j - i,
    {
        assert(s@.subrange(i as int, j as int).drop_last() =~= s@.subrange(i as int, j - 1));
        j = j - 1;
    }
    s.substring_char(i, j)
}

/// The fields of `s` between its commas, from left to right; a text without
/// a comma is one field.
pub open spec fn fields_of(s: Seq<char>) -> Seq<Seq<char>>
    decreases s.len(),
{
    if s.len() == 0 {
        seq![Seq::<char>::empty()]
    } else {
        let front = fields_of(s.drop_last());
        if s.last() == ',' {
            front.push(Seq::<char>::empty())
        } else {
            front.update(front.len() - 1, front.last().push(s.last()))
        }
    }
}

pub open spec fn views_of(v: Seq<String>) -> Seq<Seq<char>> {
    v.map_values(|f: String| f@)
}

pub proof fn lemma_fields_nonempty(s: Seq<char>)
    ensures
        fields_of(s).len() >= 1,
    decreases s.len(),
{
    if s.len() > 0 {
        lemma_fields_nonempty(s.drop_last());
    }
}

/// The comma-separated fields of `s`.
pub fn split_commas(s: &str) -> (r: Vec<String>)
    ensures
        views_of(r@) == fields_of(s@),
{
    let n = s.unicode_len();
    let mut done: Vec<String> = Vec::new();
    let mut start: usize = 0;
    let mut i: usize = 0;
    assert(s@.subrange(0, 0) =~= Seq::<char>::empty());
    assert(views_of(done@).push(Seq::<char>::empty()) =~= seq![Seq::<char>::empty()]);
    while i < n
        invariant
            start <= i <= n,
            n == s@.len(),
            fields_of(s@.subrange(0, i as int)) == views_of(done@).push(
                s@.subrange(start as int, i as int),
            ),
        decreases n - i,
    {
        let c = s.get_char(i);
        proof {
            assert(s@.subrange(0, i + 1).drop_last() =~= s@.subrange(0, i as int));
            lemma_fields_nonempty(s@.subrange(0, i as int));
        }
        if c == ',' {
            let field = String::from_str(s.substring_char(start, i));
            proof {
                assert(views_of(done@.push(field)) =~= views_of(done@).push(field@));
                assert(s@.subrange(i + 1, i + 1) =~= Seq::<char>::empty());
            }
            done.push(field);
            start = i + 1;
        } else {
            assert(s@.subrange(start as int, i + 1) =~= s@.subrange(start as int, i as int).push(
                c,
            ));
            assert(views_of(done@).push(s@.subrange(start as int, i + 1)) =~= views_of(
                done@,
            ).push(s@.subrange(start as int, i as int)).update(
                done@.len() as int,
                s@.subrange(start as int, i + 1),
            ));
        }
        i = i + 1;
    }
    let last = String::from_str(s.substring_char(start, n));
    proof {
        assert(s@.subrange(0, n as int) =~= s@);
        assert(views_of(done@.push(last)) =~= views_of(done@).push(last@));
    }
    done.push(last);
    done
}

pub open spec fn is_digit(c: char) -> bool {
    '0' as u32 <= c as u32 <= '9' as u32
}

pub open spec fn digit_value(c: char) -> nat {
    (c as u32 - '0' as u32) as nat
}

pub open spec fn all_digits(s: Seq<char>) -> bool {
    forall|k: int| 0 <= k < s.len() ==> is_digit(#[trigger] s[k])
}

/// The number that the decimal digits `s` write, most significant first.
pub open spec fn digits_value(s: Seq<char>) -> nat
    decreases s.len(),
{
    if s.len() == 0 {
        0
    } else {
        digits_value(s.drop_last()) * 10 + digit_value(s.last())
    }
}

/// The digits of an unsigned number, after an optional `+` sign.
pub open spec fn unsigned_digits(s: Seq<char>) -> Seq<char> {
    if s.len() > 0 && s[0] == '+' {
        s.drop_first()
    } else {
        s
    }
}

/// What `s` reads as a `u32`: an optional `+`, then at least one decimal
/// digit and nothing else, with a value that fits in 32 bits.
pub open spec fn parsed_u32(s: Seq<char>) -> Option<u32> {
    let d = unsigned_digits(s);
    if d.len() > 0 && all_digits(d) && digits_value(d) <= u32::MAX {
        Some(digits_value(d) as u32)
    } else {
        None
    }
}

pub proof fn lemma_digits_value_grows(s: Seq<char>, i: int)
    requires
        0 <= i <= s.len(),
    ensures
        digits_value(s.subrange(0, i)) <= digits_value(s),
    decreases s.len() - i,
{
    if i < s.len() {
        lemma_digits_value_grows(s, i + 1);
        assert(s.subrange(0, i + 1).drop_last() =~= s.subrange(0, i));
    } else {
        assert(s.subrange(0, i) =~= s);
    }
}

/// Reads `s` as an unsigned 32-bit number, as `str::parse::<u32>` does.
pub fn parse_u32(s: &str) -> (r: Option<u32>)
    ensures
        r == parsed_u32(s@),
{
    let n = s.unicode_len();
    let mut i: usize = 0;
    if n > 0 && s.get_char(0) == '+' {
        i = 1;
    }
    let ghost d = unsigned_digits(s@);
    assert(d =~= s@.subrange(i as int, n as int));
    if i == n {
        return None;
    }
    let mut value: u64 = 0;
    let first = i;
    while i < n
        invariant
            first <= i <= n,
            n == s@.len(),
            d == s@.subrange(first as int, n as int),
            d == unsigned_digits(s@),
            all_digits(s@.subrange(first as int, i as int)),
            value == digits_value(s@.subrange(first as int, i as int)),
            value <= u32::MAX,
        decreases n - i,
    {
        let c = s.get_char(i);
        let cv = c as u32;
        if cv < '0' as u32 || cv > '9' as u32 {
            assert(d[i - first] == c);
            assert(!is_digit(d[i - first]));
            return None;
        }
        proof {
            assert(s@.subrange(first as int, i + 1).drop_last() =~= s@.subrange(
                first as int,
                i as int,
            ));
            assert(d.subrange(0, i + 1 - first) =~= s@.subrange(first as int, i + 1));
            assert(s@.subrange(first as int, i + 1).last() == c);
        }
        value = value * 10 + (cv - '0' as u32) as u64;
        if value > u32::MAX as u64 {
            proof {
                lemma_digits_value_grows(d, i + 1 - first);
            }
            return None;
        }
        i = i + 1;
    }
    Some(value as u32)
}

/// The decimal digit for `d < 10`.
pub open spec fn digit_char(d: nat) -> char {
    seq!['0', '1', '2', '3', '4', '5', '6', '7', '8', '9'][d as int]
}

pub proof fn lemma_digit_char(d: nat)
    requires
        d < 10,
    ensures
        is_digit(digit_char(d)),
        digit_value(digit_char(d)) == d,
{
    let t = seq!['0', '1', '2', '3', '4', '5', '6', '7', '8', '9'];
    assert(t[0] == '0' && t[1] == '1' && t[2] == '2' && t[3] == '3' && t[4] == '4');
    assert(t[5] == '5' && t[6] == '6' && t[7] == '7' && t[8] == '8' && t[9] == '9');
}

/// The decimal writing of `n`, without sign or leading zeros.
pub open spec fn decimal_of(n: nat) -> Seq<char>
    decreases n,
{
    if n < 10 {
        seq![digit_char(n)]
    } else {
        decimal_of(n / 10).push(digit_char(n % 10))
    }
}

/// Relies on `u32`'s `Display` (through `to_string`): decimal digits, no sign,
/// no leading zeros.
#[verifier::external_body]
pub(crate) fn decimal_text(n: u32) -> (r: String)
    ensures
        r@ == decimal_of(n as nat),
{
    n.to_string()
}

pub proof fn lemma_decimal_reads_back(n: nat)
    ensures
        decimal_of(n).len() > 0,
        all_digits(decimal_of(n)),
        digits_value(decimal_of(n)) == n,
        !is_white_space(decimal_of(n)[0]),
        !is_white_space(decimal_of(n).last()),
        decimal_of(n)[0] != '+',
        !decimal_of(n).contains(','),
    decreases n,
{
    lemma_digit_char(n % 10);
    if n < 10 {
        assert(n % 10 == n);
        assert(decimal_of(n).drop_last() =~= Seq::<char>::empty());
        assert(digits_value(Seq::<char>::empty()) == 0);
        assert(digits_value(decimal_of(n)) == digit_value(decimal_of(n).last()));
    } else {
        lemma_decimal_reads_back(n / 10);
        let p = decimal_of(n / 10);
        assert((n / 10) * 10 + n % 10 == n);
        assert(decimal_of(n).drop_last() =~= p);
        assert(digits_value(decimal_of(n)) == digits_value(p) * 10 + digit_value(
            digit_char(n % 10),
        ));
        assert(decimal_of(n)[0] == p[0]);
        assert forall|k: int| 0 <= k < decimal_of(n).len() implies is_digit(
            #[trigger] decimal_of(n)[k],
        ) by {
            if k < p.len() {
                assert(decimal_of(n)[k] == p[k]);
            }
        }
    }
    assert forall|k: int| 0 <= k < decimal_of(n).len() implies decimal_of(n)[k] != ',' by {
        assert(is_digit(decimal_of(n)[k]));
    }
}

pub open spec fn is_ascii_letter(c: char) -> bool {
    ('a' as u32 <= c as u32 <= 'z' as u32) || ('A' as u32 <= c as u32 <= 'Z' as u32)
}

/// What `str::to_uppercase` makes of a text: its Unicode upper-case mapping,
/// which may change the number of characters (`ß` becomes `SS`).
pub uninterp spec fn upper_of(s: Seq<char>) -> Seq<char>;

/// Relies on `str::to_uppercase`: the upper-case mapping of the text, a
/// function of its characters alone.
#[verifier::external_body]
pub(crate) fn to_upper(s: &str) -> (r: String)
    ensures
        r@ == upper_of(s@),
{
    s.to_uppercase()
}

pub open spec fn all_ascii_letters(s: Seq<char>) -> bool {
    forall|k: int| 0 <= k < s.len() ==> is_ascii_letter(#[trigger] s[k])
}

pub fn ascii_letters(s: &str) -> (r: bool)
    ensures
        r == all_ascii_letters(s@),
{
    let n = s.unicode_len();
    let mut i: usize = 0;
    while i < n
        invariant
            i <= n,
            n == s@.len(),
            forall|k: int| 0 <= k < i ==> is_ascii_letter(#[trigger] s@[k]),
        decreases n - i,
    {
        let cv = s.get_char(i) as u32;
        if !(('a' as u32 <= cv && cv <= 'z' as u32) || ('A' as u32 <= cv && cv <= 'Z' as u32)) {
            return false;
        }
        i = i + 1;
    }
    true
}

pub proof fn lemma_trim_start_keeps_suffix(s: Seq<char>)
    ensures
        trim_start(s).len() <= s.len(),
        trim_start(s).len() > 0 ==> !is_white_space(trim_start(s)[0]),
        forall|k: int|
            0 <= k < trim_start(s).len() ==> #[trigger] trim_start(s)[k] == s[k + s.len()
                - trim_start(s).len()],
    decreases s.len(),
{
    if s.len() > 0 && is_white_space(s[0]) {
        lemma_trim_start_keeps_suffix(s.drop_first());
    }
}

pub proof fn lemma_trim_end_keeps_prefix(s: Seq<char>)
    ensures
        trim_end(s).len() <= s.len(),
        trim_end(s).len() > 0 ==> !is_white_space(trim_end(s).last()),
        forall|k: int| 0 <= k < trim_end(s).len() ==> #[trigger] trim_end(s)[k] == s[k],
    decreases s.len(),
{
    if s.len() > 0 && is_white_space(s.last()) {
        lemma_trim_end_keeps_prefix(s.drop_last());
    }
}

/// A trimmed text starts and ends with no whitespace, and holds no character
/// that the text did not.
pub proof fn lemma_trimmed_ends(s: Seq<char>, c: char)
    ensures
        trimmed(s).len() > 0 ==> !is_white_space(trimmed(s)[0]) && !is_white_space(
            trimmed(s).last(),
        ),
        trimmed(s).contains(c) ==> s.contains(c),
{
    let t = trim_start(s);
    lemma_trim_start_keeps_suffix(s);
    lemma_trim_end_keeps_prefix(t);
    if trimmed(s).len() > 0 {
        assert(trimmed(s)[0] == t[0]);
    }
    if trimmed(s).contains(c) {
        let k = choose|k: int| 0 <= k < trimmed(s).len() && trimmed(s)[k] == c;
        assert(trimmed(s)[k] == t[k]);
        assert(s[k + s.len() - t.len()] == c);
    }
}

/// Trimming a trimmed text changes nothing.
pub proof fn lemma_trimmed_twice(s: Seq<char>)
    ensures
        trimmed(trimmed(s)) == trimmed(s),
{
    lemma_trimmed_ends(s, ' ');
    if trimmed(s).len() > 0 {
        lemma_trimmed_unchanged(trimmed(s));
    }
}

/// A text that neither starts nor ends with whitespace is its own trim.
pub proof fn lemma_trimmed_unchanged(s: Seq<char>)
    requires
        s.len() > 0,
        !is_white_space(s[0]),
        !is_white_space(s.last()),
    ensures
        trimmed(s) == s,
{
}

/// A text without commas is one field.
pub proof fn lemma_fields_single(s: Seq<char>)
    requires
        !s.contains(','),
    ensures
        fields_of(s) == seq![s],
    decreases s.len(),
{
    if s.len() > 0 {
        assert(!s.drop_last().contains(',')) by {
            if s.drop_last().contains(',') {
                let k = choose|k: int| 0 <= k < s.drop_last().len() && s.drop_last()[k] == ',';
                assert(s[k] == ',');
            }
        }
        lemma_fields_single(s.drop_last());
        assert(s.last() != ',') by {
            assert(s[s.len() - 1] == s.last());
        }
        assert(s.drop_last().push(s.last()) =~= s);
        assert(fields_of(s) =~= seq![s]);
    } else {
        assert(s =~= Seq::<char>::empty());
    }
}

/// A comma between two texts separates their fields.
pub proof fn lemma_fields_join(a: Seq<char>, b: Seq<char>)
    ensures
        fields_of(a + seq![','] + b) == fields_of(a) + fields_of(b),
    decreases b.len(),
{
    lemma_fields_nonempty(a);
    if b.len() == 0 {
        assert(a + seq![','] + b =~= (a + seq![',']));
        assert((a + seq![',']).drop_last() =~= a);
        assert(fields_of(a) + fields_of(b) =~= fields_of(a).push(Seq::<char>::empty()));
    } else {
        let b0 = b.drop_last();
        lemma_fields_join(a, b0);
        lemma_fields_nonempty(b0);
        assert((a + seq![','] + b).drop_last() =~= a + seq![','] + b0);
        assert((a + seq![','] + b).last() == b.last());
        if b.last() == ',' {
            assert(fields_of(a) + fields_of(b) =~= (fields_of(a) + fields_of(b0)).push(
                Seq::<char>::empty(),
            ));
        } else {
            let fb = fields_of(b0);
            assert(fields_of(a) + fields_of(b) =~= (fields_of(a) + fb).update(
                fields_of(a).len() + fb.len() - 1,
                fb.last().push(b.last()),
            ));
        }
    }
}

pub proof fn lemma_letter_not_space(c: char)
    requires
        is_ascii_letter(c),
    ensures
        !is_white_space(c),
        c != ',',
        c != '+',
{
}

} // verus!
