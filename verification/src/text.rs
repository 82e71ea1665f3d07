//! Character-sequence model shared by the log: lexicographic order on lines,
//! whitespace tokens, digit parsing and decimal rendering.
use vstd::prelude::*;
use vstd::multiset::Multiset;
use vstd::string::StrSliceExecFns;

verus! {

/// Strict lexicographic order on character sequences, by Unicode code point,
/// with a proper prefix ordered before any extension of it.
pub open spec fn lex_lt(a: Seq<char>, b: Seq<char>) -> bool
    decreases a.len(),
{
    if b.len() == 0 {
        false
    } else if a.len() == 0 {
        true
    } else if a[0] != b[0] {
        a[0] < b[0]
    } else {
        lex_lt(a.drop_first(), b.drop_first())
    }
}

/// Lexicographic order, allowing equality.
pub open spec fn lex_le(a: Seq<char>, b: Seq<char>) -> bool {
    lex_lt(a, b) || a == b
}

pub proof fn lemma_lex_lt_irreflexive(a: Seq<char>)
    ensures
        !lex_lt(a, a),
    decreases a.len(),
{
    if a.len() > 0 {
        lemma_lex_lt_irreflexive(a.drop_first());
    }
}

pub proof fn lemma_lex_lt_connected(a: Seq<char>, b: Seq<char>)
    ensures
        lex_lt(a, b) || lex_lt(b, a) || a == b,
    decreases a.len(),
{
    if a.len() == 0 && b.len() == 0 {
        assert(a =~= b);
    } else if a.len() > 0 && b.len() > 0 && a[0] == b[0] {
        lemma_lex_lt_connected(a.drop_first(), b.drop_first());
        if a.drop_first() == b.drop_first() {
            assert(a.drop_first().len() == b.drop_first().len());
            assert(a.len() == b.len());
            assert forall|i: int| 0 <= i < a.len() implies a[i] == b[i] by {
                if i > 0 {
                    assert(a[i] == a.drop_first()[i - 1]);
                    assert(b[i] == b.drop_first()[i - 1]);
                }
            }
            assert(a =~= b);
        }
    }
}

pub proof fn lemma_lex_lt_asymmetric(a: Seq<char>, b: Seq<char>)
    ensures
        !(lex_lt(a, b) && lex_lt(b, a)),
    decreases a.len(),
{
    if a.len() > 0 && b.len() > 0 && a[0] == b[0] {
        lemma_lex_lt_asymmetric(a.drop_first(), b.drop_first());
    }
}

pub proof fn lemma_lex_lt_transitive(a: Seq<char>, b: Seq<char>, c: Seq<char>)
    requires
        lex_lt(a, b),
        lex_lt(b, c),
    ensures
        lex_lt(a, c),
    decreases a.len(),
{
    if a.len() > 0 && b.len() > 0 && c.len() > 0 && a[0] == b[0] && b[0] == c[0] {
        lemma_lex_lt_transitive(a.drop_first(), b.drop_first(), c.drop_first());
    }
}

pub proof fn lemma_lex_le_transitive(a: Seq<char>, b: Seq<char>, c: Seq<char>)
    requires
        lex_le(a, b),
        lex_le(b, c),
    ensures
        lex_le(a, c),
{
    if lex_lt(a, b) && lex_lt(b, c) {
        lemma_lex_lt_transitive(a, b, c);
    }
}

/// An equal prefix with a smaller character right after it puts `a` before `b`.
pub proof fn lemma_lex_lt_at(a: Seq<char>, b: Seq<char>, k: int)
    requires
        0 <= k < a.len(),
        k < b.len(),
        forall|j: int| 0 <= j < k ==> a[j] == b[j],
        a[k] < b[k],
    ensures
        lex_lt(a, b),
    decreases k,
{
    if k > 0 {
        lemma_lex_lt_at(a.drop_first(), b.drop_first(), k - 1);
    }
}

/// A proper prefix is ordered before any extension of it.
pub proof fn lemma_lex_lt_prefix(a: Seq<char>, b: Seq<char>)
    requires
        a.len() < b.len(),
        forall|j: int| 0 <= j < a.len() ==> a[j] == b[j],
    ensures
        lex_lt(a, b),
    decreases a.len(),
{
    if a.len() > 0 {
        lemma_lex_lt_prefix(a.drop_first(), b.drop_first());
    }
}

/// Index of the first space in `s`, or the length of `s` when it has none:
/// the date token of a log line ends here.
pub open spec fn token_len(s: Seq<char>) -> int
    decreases s.len(),
{
    if s.len() == 0 {
        0
    } else if s[0] == ' ' {
        0
    } else {
        1 + token_len(s.drop_first())
    }
}

/// The leading run of non-space characters of a log line: for a session
/// record this is its date token.
pub open spec fn token_of(s: Seq<char>) -> Seq<char> {
    s.take(token_len(s))
}

pub proof fn lemma_token_len_bounds(s: Seq<char>)
    ensures
        0 <= token_len(s) <= s.len(),
        token_len(s) < s.len() ==> s[token_len(s)] == ' ',
        forall|j: int| 0 <= j < token_len(s) ==> s[j] != ' ',
    decreases s.len(),
{
    if s.len() > 0 && s[0] != ' ' {
        lemma_token_len_bounds(s.drop_first());
        assert forall|j: int| 0 <= j < token_len(s) implies s[j] != ' ' by {
            if j > 0 {
                assert(s.drop_first()[j - 1] != ' ');
            }
        }
    }
}

/// `token_len` is the position of the first space, characterized directly.
pub proof fn lemma_token_len_at(s: Seq<char>, k: int)
    requires
        0 <= k <= s.len(),
        forall|j: int| 0 <= j < k ==> s[j] != ' ',
        k < s.len() ==> s[k] == ' ',
    ensures
        token_len(s) == k,
    decreases k,
{
    if k == 0 {
    } else {
        assert(s[0] != ' ');
        assert forall|j: int| 0 <= j < k - 1 implies s.drop_first()[j] != ' ' by {
            assert(s[j + 1] != ' ');
        }
        if k - 1 < s.drop_first().len() {
            assert(s.drop_first()[k - 1] == s[k]);
        }
        lemma_token_len_at(s.drop_first(), k - 1);
    }
}

/// Outcome of a three-way lexicographic comparison of two lines.
pub enum LineOrder {
    Before,
    Same,
    After,
}

/// Index just past the leading non-space run of `s`.
pub fn token_end(s: &str) -> (k: usize)
    ensures
        k as int == token_len(s@),
{
    let n: usize = s.unicode_len();
    let mut i: usize = 0;
    while i < n
        invariant
            i <= n,
            n == s@.len(),
            forall|j: int| 0 <= j < i ==> s@[j] != ' ',
        decreases n - i,
    {
        if s.get_char(i) == ' ' {
            proof {
                lemma_token_len_at(s@, i as int);
            }
            return i;
        }
        i = i + 1;
    }
    proof {
        lemma_token_len_at(s@, n as int);
    }
    n
}

/// The date token of a log line: its characters up to the first space.
pub fn date_token<'a>(s: &'a str) -> (t: &'a str)
    ensures
        t@ == token_of(s@),
{
    let k: usize = token_end(s);
    proof {
        lemma_token_len_bounds(s@);
    }
    let t = s.substring_char(0, k);
    proof {
        assert(t@ =~= token_of(s@));
    }
    t
}

/// Three-way lexicographic comparison of two strings, by character.
pub fn lex_cmp(a: &str, b: &str) -> (r: LineOrder)
    ensures
        (r is Before) <==> lex_lt(a@, b@),
        (r is Same) <==> a@ == b@,
        (r is After) <==> lex_lt(b@, a@),
{
    proof {
        lemma_lex_lt_irreflexive(a@);
        lemma_lex_lt_irreflexive(b@);
        lemma_lex_lt_asymmetric(a@, b@);
        lemma_lex_lt_connected(a@, b@);
    }
    let na: usize = a.unicode_len();
    let nb: usize = b.unicode_len();
    let mut i: usize = 0;
    while i < na && i < nb
        invariant
            i <= na,
            i <= nb,
            na == a@.len(),
            nb == b@.len(),
            forall|j: int| 0 <= j < i ==> a@[j] == b@[j],
        decreases na - i,
    {
        let ca = a.get_char(i);
        let cb = b.get_char(i);
        if ca < cb {
            proof {
                lemma_lex_lt_at(a@, b@, i as int);
                lemma_lex_lt_asymmetric(a@, b@);
                lemma_lex_lt_irreflexive(a@);
            }
            return LineOrder::Before;
        }
        if cb < ca {
            proof {
                lemma_lex_lt_at(b@, a@, i as int);
                lemma_lex_lt_asymmetric(a@, b@);
                lemma_lex_lt_irreflexive(a@);
            }
            return LineOrder::After;
        }
        assert(ca == cb);
        i = i + 1;
    }
    if na == nb {
        proof {
            assert(a@ =~= b@);
        }
        LineOrder::Same
    } else if na < nb {
        proof {
            lemma_lex_lt_prefix(a@, b@);
            lemma_lex_lt_asymmetric(a@, b@);
            lemma_lex_lt_irreflexive(a@);
        }
        LineOrder::Before
    } else {
        proof {
            lemma_lex_lt_prefix(b@, a@);
            lemma_lex_lt_asymmetric(a@, b@);
            lemma_lex_lt_irreflexive(b@);
        }
        LineOrder::After
    }
}

/// `s` without its leading run of spaces.
pub open spec fn skip_spaces(s: Seq<char>) -> Seq<char>
    decreases s.len(),
{
    if s.len() > 0 && s[0] == ' ' {
        skip_spaces(s.drop_first())
    } else {
        s
    }
}

/// The whitespace-separated token after the date token of a log line: for a
/// session record this is its duration token, such as `890s`.
pub open spec fn duration_token(s: Seq<char>) -> Seq<char> {
    token_of(skip_spaces(s.skip(token_len(s))))
}

/// A decimal digit.
pub open spec fn is_digit_char(c: char) -> bool {
    '0' <= c && c <= '9'
}

/// The numeric value of one decimal digit character.
pub open spec fn digit_val(c: char) -> int {
    (c as u32) - ('0' as u32)
}

/// The integer denoted by a sequence of decimal digit characters.
pub open spec fn digits_val(s: Seq<char>) -> int
    decreases s.len(),
{
    if s.len() == 0 {
        0
    } else {
        digits_val(s.drop_last()) * 10 + digit_val(s.last())
    }
}

/// The digit run of a duration token: the token without its final `s` when
/// it has one, and the token itself otherwise, per the serialized record
/// form `<uint>s`.
pub open spec fn duration_digits(tok: Seq<char>) -> Seq<char> {
    if tok.len() > 0 && tok.last() == 's' {
        tok.drop_last()
    } else {
        tok
    }
}

/// Every character is a decimal digit.
pub open spec fn all_digits(s: Seq<char>) -> bool {
    forall|i: int| 0 <= i < s.len() ==> is_digit_char(#[trigger] s[i])
}

/// The seconds denoted by a duration token: a non-empty run of decimal
/// digits, optionally closed by a single final `s`, whose value fits in a
/// `u64`. Any other token denotes nothing: a duration that does not read as
/// an unsigned count of seconds is corrupt, never partially accepted.
pub open spec fn parse_secs(tok: Seq<char>) -> Option<u64> {
    let ds = duration_digits(tok);
    if ds.len() == 0 || !all_digits(ds) {
        None
    } else if digits_val(ds) > u64::MAX {
        None
    } else {
        Some(digits_val(ds) as u64)
    }
}

pub proof fn lemma_digits_val_nonneg(s: Seq<char>)
    requires
        all_digits(s),
    ensures
        digits_val(s) >= 0,
    decreases s.len(),
{
    if s.len() > 0 {
        assert forall|i: int| 0 <= i < s.drop_last().len() implies is_digit_char(
            #[trigger] s.drop_last()[i],
        ) by {
            assert(s.drop_last()[i] == s[i]);
        }
        lemma_digits_val_nonneg(s.drop_last());
        assert(is_digit_char(s.last()));
    }
}

/// A prefix of a digit run never denotes more than the whole run.
pub proof fn lemma_digits_val_take_le(s: Seq<char>, i: int)
    requires
        0 <= i <= s.len(),
        all_digits(s),
    ensures
        digits_val(s.take(i)) <= digits_val(s),
    decreases s.len() - i,
{
    if i < s.len() {
        lemma_digits_val_take_le(s, i + 1);
        assert(s.take(i + 1).drop_last() =~= s.take(i));
        assert(s.take(i + 1).last() == s[i]);
        assert forall|j: int| 0 <= j < s.take(i).len() implies is_digit_char(
            #[trigger] s.take(i)[j],
        ) by {
            assert(s.take(i)[j] == s[j]);
        }
        lemma_digits_val_nonneg(s.take(i));
        assert(is_digit_char(s[i]));
    } else {
        assert(s.take(i) =~= s);
    }
}

/// The digit character for a value below ten.
pub open spec fn digit_char(d: int) -> char {
    if d == 0 {
        '0'
    } else if d == 1 {
        '1'
    } else if d == 2 {
        '2'
    } else if d == 3 {
        '3'
    } else if d == 4 {
        '4'
    } else if d == 5 {
        '5'
    } else if d == 6 {
        '6'
    } else if d == 7 {
        '7'
    } else if d == 8 {
        '8'
    } else {
        '9'
    }
}

/// The decimal rendering of a non-negative integer, without leading zeros.
pub open spec fn dec_str(n: int) -> Seq<char>
    decreases n,
{
    if n < 0 {
        Seq::empty()
    } else if n < 10 {
        seq![digit_char(n)]
    } else {
        dec_str(n / 10).push(digit_char(n % 10))
    }
}

/// Relies on std's `String::push`: appends exactly one character at the end.
#[verifier::external_body]
pub(crate) fn push_char(s: &mut String, c: char)
    ensures
        final(s)@ == old(s)@.push(c),
{
    s.push(c);
}

/// The digit character for a value below ten.
pub fn digit_char_of(d: u32) -> (c: char)
    requires
        d < 10,
    ensures
        c == digit_char(d as int),
{
    if d == 0 {
        '0'
    } else if d == 1 {
        '1'
    } else if d == 2 {
        '2'
    } else if d == 3 {
        '3'
    } else if d == 4 {
        '4'
    } else if d == 5 {
        '5'
    } else if d == 6 {
        '6'
    } else if d == 7 {
        '7'
    } else if d == 8 {
        '8'
    } else {
        '9'
    }
}

/// Renders a count of seconds in decimal, as the log serializes it.
pub fn u64_to_string(v: u64) -> (s: String)
    ensures
        s@ == dec_str(v as int),
    decreases v,
{
    let d: char = digit_char_of((v % 10) as u32);
    if v < 10 {
        let mut s = String::new();
        push_char(&mut s, d);
        proof {
            assert(s@ =~= dec_str(v as int));
        }
        s
    } else {
        let mut s = u64_to_string(v / 10);
        push_char(&mut s, d);
        proof {
            assert(s@ =~= dec_str(v as int));
        }
        s
    }
}

/// The seconds denoted by a duration token, computed as `parse_secs` states.
pub fn parse_seconds_token(tok: &str) -> (r: Option<u64>)
    ensures
        r == parse_secs(tok@),
{
    let n: usize = tok.unicode_len();
    let last_is_s: bool = n > 0 && tok.get_char(n - 1) == 's';
    let end: usize = if last_is_s {
        n - 1
    } else {
        n
    };
    let ghost ds = duration_digits(tok@);
    proof {
        assert(ds =~= tok@.take(end as int));
    }
    if end == 0 {
        return None;
    }
    let mut i: usize = 0;
    let mut acc: u64 = 0;
    while i < end
        invariant
            i <= end,
            end <= n,
            n == tok@.len(),
            ds == duration_digits(tok@),
            ds == tok@.take(end as int),
            end == ds.len(),
            forall|j: int| 0 <= j < i ==> is_digit_char(#[trigger] ds[j]),
            acc as int == digits_val(ds.take(i as int)),
        decreases end - i,
    {
        let c = tok.get_char(i);
        proof {
            assert(ds[i as int] == tok@[i as int]);
            assert(ds.take(i as int + 1).drop_last() =~= ds.take(i as int));
            assert(ds.take(i as int + 1).last() == ds[i as int]);
        }
        if !('0' <= c && c <= '9') {
            proof {
                assert(!is_digit_char(ds[i as int]));
            }
            return None;
        }
        let d: u64 = (c as u32 - 48) as u64;
        proof {
            assert(digit_val(c) == d as int);
        }
        let wide: u128 = acc as u128 * 10 + d as u128;
        if wide > u64::MAX as u128 {
            proof {
                if all_digits(ds) {
                    lemma_digits_val_take_le(ds, i as int + 1);
                }
            }
            return None;
        }
        acc = wide as u64;
        i = i + 1;
    }
    proof {
        assert(ds.take(end as int) =~= ds);
        assert(all_digits(ds));
    }
    Some(acc)
}

/// Index of the first newline in `s`, or the length of `s` when it has none.
pub open spec fn nl_len(s: Seq<char>) -> int
    decreases s.len(),
{
    if s.len() == 0 {
        0
    } else if s[0] == '\n' {
        0
    } else {
        1 + nl_len(s.drop_first())
    }
}

pub proof fn lemma_nl_len_bounds(s: Seq<char>)
    ensures
        0 <= nl_len(s) <= s.len(),
        nl_len(s) < s.len() ==> s[nl_len(s)] == '\n',
        forall|j: int| 0 <= j < nl_len(s) ==> s[j] != '\n',
    decreases s.len(),
{
    if s.len() > 0 && s[0] != '\n' {
        lemma_nl_len_bounds(s.drop_first());
        assert forall|j: int| 0 <= j < nl_len(s) implies s[j] != '\n' by {
            if j > 0 {
                assert(s.drop_first()[j - 1] != '\n');
            }
        }
    }
}

/// `nl_len` is the position of the first newline, characterized directly.
pub proof fn lemma_nl_len_at(s: Seq<char>, k: int)
    requires
        0 <= k <= s.len(),
        forall|j: int| 0 <= j < k ==> s[j] != '\n',
        k < s.len() ==> s[k] == '\n',
    ensures
        nl_len(s) == k,
    decreases k,
{
    if k > 0 {
        assert(s[0] != '\n');
        assert forall|j: int| 0 <= j < k - 1 implies s.drop_first()[j] != '\n' by {
            assert(s[j + 1] != '\n');
        }
        if k - 1 < s.drop_first().len() {
            assert(s.drop_first()[k - 1] == s[k]);
        }
        lemma_nl_len_at(s.drop_first(), k - 1);
    }
}

/// `s` split at every newline; the separators themselves are dropped. The
/// result always has one more segment than `s` has newlines.
pub open spec fn split_nl(s: Seq<char>) -> Seq<Seq<char>>
    decreases s.len(),
{
    let k = nl_len(s);
    if 0 <= k < s.len() {
        seq![s.take(k)] + split_nl(s.skip(k + 1))
    } else {
        seq![s]
    }
}

/// The views of a vector of owned lines.
pub open spec fn views(ls: Seq<String>) -> Seq<Seq<char>> {
    ls.map_values(|l: String| l@)
}

/// Index of the first newline of `s`, or its length when it has none.
pub fn newline_end(s: &str) -> (k: usize)
    ensures
        k as int == nl_len(s@),
{
    let n: usize = s.unicode_len();
    let mut i: usize = 0;
    while i < n
        invariant
            i <= n,
            n == s@.len(),
            forall|j: int| 0 <= j < i ==> s@[j] != '\n',
        decreases n - i,
    {
        if s.get_char(i) == '\n' {
            proof {
                lemma_nl_len_at(s@, i as int);
            }
            return i;
        }
        i = i + 1;
    }
    proof {
        lemma_nl_len_at(s@, n as int);
    }
    n
}

/// `s` split at every newline, as `split_nl` states.
pub fn split_lines(s: &str) -> (r: Vec<String>)
    ensures
        views(r@) == split_nl(s@),
    decreases s@.len(),
{
    let n: usize = s.unicode_len();
    let k: usize = newline_end(s);
    proof {
        lemma_nl_len_bounds(s@);
    }
    if k < n {
        let head = s.substring_char(0, k);
        let tail = s.substring_char(k + 1, n);
        let mut r = split_lines(tail);
        r.insert(0, head.to_owned());
        proof {
            assert(views(r@) =~= seq![head@] + split_nl(tail@));
            assert(head@ =~= s@.take(k as int));
            assert(tail@ =~= s@.skip(k as int + 1));
            assert(views(r@) =~= split_nl(s@));
        }
        r
    } else {
        let mut r: Vec<String> = Vec::new();
        r.push(s.to_owned());
        proof {
            assert(views(r@) =~= seq![s@]);
        }
        r
    }
}

/// The lines are in lexicographically non-decreasing order.
pub open spec fn line_sorted(ls: Seq<Seq<char>>) -> bool {
    forall|i: int, j: int| 0 <= i <= j < ls.len() ==> lex_le(#[trigger] ls[i], #[trigger] ls[j])
}

/// `x` placed before the first line of `ls` that is not below it.
pub open spec fn insert_line(x: Seq<char>, ls: Seq<Seq<char>>) -> Seq<Seq<char>>
    decreases ls.len(),
{
    if ls.len() == 0 {
        seq![x]
    } else if lex_le(x, ls[0]) {
        seq![x] + ls
    } else {
        seq![ls[0]] + insert_line(x, ls.drop_first())
    }
}

/// The lines of `ls` rearranged into lexicographic order by insertion.
pub open spec fn sort_lines_spec(ls: Seq<Seq<char>>) -> Seq<Seq<char>>
    decreases ls.len(),
{
    if ls.len() == 0 {
        Seq::empty()
    } else {
        insert_line(ls.last(), sort_lines_spec(ls.drop_last()))
    }
}

pub proof fn lemma_insert_line_ensures(x: Seq<char>, ls: Seq<Seq<char>>)
    requires
        line_sorted(ls),
    ensures
        line_sorted(insert_line(x, ls)),
        insert_line(x, ls).len() == ls.len() + 1,
        insert_line(x, ls).to_multiset() == ls.to_multiset().insert(x),
        forall|i: int|
            0 <= i < insert_line(x, ls).len() ==> (#[trigger] insert_line(x, ls)[i] == x
                || ls.contains(insert_line(x, ls)[i])),
    decreases ls.len(),
{
    broadcast use vstd::seq_lib::group_seq_properties;

    let r = insert_line(x, ls);
    if ls.len() == 0 {
        assert(seq![x].to_multiset() =~= ls.to_multiset().insert(x)) by {
            assert(seq![x] =~= Seq::<Seq<char>>::empty().push(x));
            Seq::<Seq<char>>::empty().to_multiset_ensures();
            assert(ls.to_multiset() =~= Multiset::<Seq<char>>::empty()) by {
                ls.to_multiset_ensures();
            }
        }
    } else if lex_le(x, ls[0]) {
        assert(r =~= seq![x] + ls);
        vstd::seq_lib::lemma_multiset_commutative(seq![x], ls);
        assert(seq![x].to_multiset() =~= Multiset::<Seq<char>>::empty().insert(x)) by {
            assert(seq![x] =~= Seq::<Seq<char>>::empty().push(x));
            Seq::<Seq<char>>::empty().to_multiset_ensures();
        }
        assert(r.to_multiset() =~= ls.to_multiset().insert(x));
        assert forall|i: int, j: int| 0 <= i <= j < r.len() implies lex_le(r[i], r[j]) by {
            if i == 0 && j > 0 {
                assert(r[j] == ls[j - 1]);
                lemma_lex_le_transitive(x, ls[0], ls[j - 1]);
            } else if i > 0 {
                assert(r[i] == ls[i - 1] && r[j] == ls[j - 1]);
            }
        }
    } else {
        lemma_lex_lt_connected(x, ls[0]);
        assert(lex_lt(ls[0], x));
        assert forall|i: int, j: int|
            0 <= i <= j < ls.drop_first().len() implies lex_le(
            #[trigger] ls.drop_first()[i],
            #[trigger] ls.drop_first()[j],
        ) by {
            assert(ls.drop_first()[i] == ls[i + 1]);
            assert(ls.drop_first()[j] == ls[j + 1]);
        }
        lemma_insert_line_ensures(x, ls.drop_first());
        let rr = insert_line(x, ls.drop_first());
        assert(r =~= seq![ls[0]] + rr);
        // multiset: ls == seq![ls[0]] + ls.drop_first()
        assert(ls =~= seq![ls[0]] + ls.drop_first());
        vstd::seq_lib::lemma_multiset_commutative(seq![ls[0]], ls.drop_first());
        vstd::seq_lib::lemma_multiset_commutative(seq![ls[0]], rr);
        assert(r.to_multiset() =~= ls.to_multiset().insert(x));
        // order: ls[0] is at or below x and every line of ls.drop_first()
        assert forall|i: int, j: int| 0 <= i <= j < r.len() implies lex_le(r[i], r[j]) by {
            if i == 0 && j > 0 {
                assert(r[j] == rr[j - 1]);
                if rr[j - 1] == x {
                    assert(lex_le(ls[0], x));
                } else {
                    assert(ls.drop_first().contains(rr[j - 1]));
                    let w = choose|w: int|
                        0 <= w < ls.drop_first().len() && ls.drop_first()[w] == rr[j - 1];
                    assert(ls[w + 1] == rr[j - 1]);
                    assert(lex_le(ls[0], ls[w + 1]));
                }
            } else if i > 0 {
                assert(r[i] == rr[i - 1] && r[j] == rr[j - 1]);
            }
        }
        assert forall|i: int| 0 <= i < r.len() implies (#[trigger] r[i] == x || ls.contains(
            r[i],
        )) by {
            if i == 0 {
                assert(ls[0] == r[0]);
            } else {
                assert(r[i] == rr[i - 1]);
                if rr[i - 1] != x {
                    assert(ls.drop_first().contains(rr[i - 1]));
                    let w = choose|w: int|
                        0 <= w < ls.drop_first().len() && ls.drop_first()[w] == rr[i - 1];
                    assert(ls[w + 1] == rr[i - 1]);
                }
            }
        }
    }
}

pub proof fn lemma_sort_lines_spec_ensures(ls: Seq<Seq<char>>)
    ensures
        line_sorted(sort_lines_spec(ls)),
        sort_lines_spec(ls).len() == ls.len(),
        sort_lines_spec(ls).to_multiset() == ls.to_multiset(),
    decreases ls.len(),
{
    if ls.len() == 0 {
        assert(ls =~= Seq::<Seq<char>>::empty());
    } else {
        lemma_sort_lines_spec_ensures(ls.drop_last());
        lemma_insert_line_ensures(ls.last(), sort_lines_spec(ls.drop_last()));
        assert(ls =~= ls.drop_last().push(ls.last()));
        assert(ls.drop_last().push(ls.last()).to_multiset() =~= ls.drop_last().to_multiset().insert(
            ls.last(),
        )) by {
            ls.drop_last().to_multiset_ensures();
        }
        assert(sort_lines_spec(ls).to_multiset() =~= ls.to_multiset());
    }
}

/// Sorts the loaded log lines lexicographically, as `sort_lines_spec` states.
pub fn sort_lines(lines: Vec<String>) -> (r: Vec<String>)
    ensures
        views(r@) == sort_lines_spec(views(lines@)),
{
    let mut r: Vec<String> = Vec::new();
    let mut i: usize = 0;
    while i < lines.len()
        invariant
            i <= lines.len(),
            views(r@) == sort_lines_spec(views(lines@).take(i as int)),
        decreases lines.len() - i,
    {
        proof {
            lemma_sort_lines_spec_ensures(views(lines@).take(i as int));
        }
        let x = lines[i].clone();
        // find the first position whose line is not below x
        let mut j: usize = 0;
        while j < r.len() && matches!(lex_cmp(r[j].as_str(), x.as_str()), LineOrder::Before)
            invariant
                j <= r.len(),
                views(r@) == sort_lines_spec(views(lines@).take(i as int)),
                i <= lines.len(),
                x@ == views(lines@).take(i as int + 1).last(),
                forall|w: int| 0 <= w < j ==> lex_lt(#[trigger] views(r@)[w], x@),
            decreases r.len() - j,
        {
            j = j + 1;
        }
        proof {
            lemma_insert_at_position(x@, views(r@), j as int);
        }
        r.insert(j, x);
        proof {
            assert(views(lines@).take(i as int + 1).drop_last() =~= views(lines@).take(i as int));
            assert(views(r@) =~= insert_line(x@, sort_lines_spec(views(lines@).take(i as int))));
        }
        i = i + 1;
    }
    proof {
        assert(views(lines@).take(lines@.len() as int) =~= views(lines@));
    }
    r
}

/// Inserting at the first position not below `x` matches `insert_line`.
pub proof fn lemma_insert_at_position(x: Seq<char>, ls: Seq<Seq<char>>, j: int)
    requires
        line_sorted(ls),
        0 <= j <= ls.len(),
        forall|w: int| 0 <= w < j ==> lex_lt(#[trigger] ls[w], x),
        j < ls.len() ==> !lex_lt(ls[j], x),
    ensures
        insert_line(x, ls) == ls.insert(j, x),
    decreases ls.len(),
{
    if ls.len() == 0 {
        assert(insert_line(x, ls) =~= ls.insert(0, x));
    } else if j == 0 {
        lemma_lex_lt_connected(x, ls[0]);
        assert(lex_le(x, ls[0]));
        assert(insert_line(x, ls) =~= ls.insert(0, x));
    } else {
        assert(lex_lt(ls[0], x));
        lemma_lex_lt_irreflexive(x);
        assert(!lex_le(x, ls[0])) by {
            if lex_lt(x, ls[0]) {
                lemma_lex_lt_asymmetric(x, ls[0]);
            }
        }
        assert forall|i: int, w: int|
            0 <= i <= w < ls.drop_first().len() implies lex_le(
            #[trigger] ls.drop_first()[i],
            #[trigger] ls.drop_first()[w],
        ) by {
            assert(ls.drop_first()[i] == ls[i + 1]);
            assert(ls.drop_first()[w] == ls[w + 1]);
        }
        assert forall|w: int| 0 <= w < j - 1 implies lex_lt(#[trigger] ls.drop_first()[w], x) by {
            assert(ls.drop_first()[w] == ls[w + 1]);
        }
        if j - 1 < ls.drop_first().len() {
            assert(ls.drop_first()[j - 1] == ls[j]);
        }
        lemma_insert_at_position(x, ls.drop_first(), j - 1);
        assert(insert_line(x, ls) =~= seq![ls[0]] + insert_line(x, ls.drop_first()));
        assert(seq![ls[0]] + ls.drop_first().insert(j - 1, x) =~= ls.insert(j, x));
    }
}

/// Mixed transitivity: at or below, then strictly below.
pub proof fn lemma_lex_le_lt_transitive(a: Seq<char>, b: Seq<char>, c: Seq<char>)
    requires
        lex_le(a, b),
        lex_lt(b, c),
    ensures
        lex_lt(a, c),
{
    if lex_lt(a, b) {
        lemma_lex_lt_transitive(a, b, c);
    }
}

/// Mixed transitivity: strictly below, then at or below.
pub proof fn lemma_lex_lt_le_transitive(a: Seq<char>, b: Seq<char>, c: Seq<char>)
    requires
        lex_lt(a, b),
        lex_le(b, c),
    ensures
        lex_lt(a, c),
{
    if lex_lt(b, c) {
        lemma_lex_lt_transitive(a, b, c);
    }
}

/// Where one sequence is below another there is a first position that
/// decides it: an equal prefix, then either `a` ends or its character is
/// smaller. The lemma hands that position back.
pub proof fn lemma_lex_lt_decompose(a: Seq<char>, b: Seq<char>) -> (k: int)
    requires
        lex_lt(a, b),
    ensures
        0 <= k < b.len(),
        k <= a.len(),
        forall|j: int| 0 <= j < k ==> a[j] == b[j],
        k == a.len() || a[k] < b[k],
    decreases a.len(),
{
    if a.len() == 0 {
        0
    } else if a[0] != b[0] {
        0
    } else {
        let k0 = lemma_lex_lt_decompose(a.drop_first(), b.drop_first());
        let k = k0 + 1;
        assert forall|j: int| 0 <= j < k implies a[j] == b[j] by {
            if j > 0 {
                assert(a.drop_first()[j - 1] == b.drop_first()[j - 1]);
            }
        }
        assert(k == a.len() || a[k] < b[k]) by {
            if k0 < a.drop_first().len() {
                assert(a.drop_first()[k0] == a[k]);
                assert(b.drop_first()[k0] == b[k]);
            }
        }
        k
    }
}

pub proof fn lemma_skip_spaces_at(s: Seq<char>, m: int)
    requires
        0 <= m <= s.len(),
        forall|j: int| 0 <= j < m ==> s[j] == ' ',
        m < s.len() ==> s[m] != ' ',
    ensures
        skip_spaces(s) == s.skip(m),
    decreases m,
{
    if m == 0 {
        assert(s.skip(0) =~= s);
    } else {
        assert(s[0] == ' ');
        assert forall|j: int| 0 <= j < m - 1 implies s.drop_first()[j] == ' ' by {
            assert(s[j + 1] == ' ');
        }
        if m - 1 < s.drop_first().len() {
            assert(s.drop_first()[m - 1] == s[m]);
        }
        lemma_skip_spaces_at(s.drop_first(), m - 1);
        assert(s.drop_first().skip(m - 1) =~= s.skip(m));
    }
}

/// Index of the first character after the leading run of spaces.
pub fn skip_spaces_end(s: &str) -> (m: usize)
    ensures
        m as int <= s@.len(),
        skip_spaces(s@) == s@.skip(m as int),
{
    let n: usize = s.unicode_len();
    let mut i: usize = 0;
    while i < n
        invariant
            i <= n,
            n == s@.len(),
            forall|j: int| 0 <= j < i ==> s@[j] == ' ',
        decreases n - i,
    {
        if s.get_char(i) != ' ' {
            proof {
                lemma_skip_spaces_at(s@, i as int);
            }
            return i;
        }
        i = i + 1;
    }
    proof {
        lemma_skip_spaces_at(s@, n as int);
    }
    n
}

/// The duration token of a log line: the whitespace-separated token after
/// the date token.
pub fn duration_token_of<'a>(line: &'a str) -> (t: &'a str)
    ensures
        t@ == duration_token(line@),
{
    let n: usize = line.unicode_len();
    let k: usize = token_end(line);
    proof {
        lemma_token_len_bounds(line@);
    }
    let rest = line.substring_char(k, n);
    proof {
        assert(rest@ =~= line@.skip(k as int));
    }
    let m: usize = skip_spaces_end(rest);
    let n2: usize = rest.unicode_len();
    let rest2 = rest.substring_char(m, n2);
    proof {
        assert(rest2@ =~= rest@.skip(m as int));
        assert(rest2@ == skip_spaces(rest@));
    }
    let e: usize = token_end(rest2);
    proof {
        lemma_token_len_bounds(rest2@);
    }
    let t = rest2.substring_char(0, e);
    proof {
        assert(t@ =~= token_of(rest2@));
    }
    t
}

/// The first whitespace-separated token of `s`, ignoring leading spaces.
pub open spec fn ws_token(s: Seq<char>) -> Seq<char> {
    token_of(skip_spaces(s))
}

/// What follows that token.
pub open spec fn ws_rest(s: Seq<char>) -> Seq<char> {
    skip_spaces(s).skip(token_len(skip_spaces(s)))
}

/// The first whitespace-separated token of `s` and what follows it.
pub fn ws_token_split<'a>(s: &'a str) -> (r: (&'a str, &'a str))
    ensures
        r.0@ == ws_token(s@),
        r.1@ == ws_rest(s@),
{
    let n: usize = s.unicode_len();
    let m: usize = skip_spaces_end(s);
    let t = s.substring_char(m, n);
    proof {
        assert(t@ =~= s@.skip(m as int));
    }
    let k: usize = token_end(t);
    proof {
        lemma_token_len_bounds(t@);
    }
    let n2: usize = t.unicode_len();
    let tok = t.substring_char(0, k);
    let rest = t.substring_char(k, n2);
    proof {
        assert(tok@ =~= ws_token(s@));
        assert(rest@ =~= ws_rest(s@));
    }
    (tok, rest)
}

/// The whitespace that console input carries around an answer.
pub open spec fn is_blank(c: char) -> bool {
    c == ' ' || c == '\t' || c == '\r' || c == '\n'
}

/// `s` without its trailing run of blank characters.
pub open spec fn trim_end_spec(s: Seq<char>) -> Seq<char>
    decreases s.len(),
{
    if s.len() > 0 && is_blank(s.last()) {
        trim_end_spec(s.drop_last())
    } else {
        s
    }
}

/// `s` without its leading run of blank characters.
pub open spec fn trim_start_spec(s: Seq<char>) -> Seq<char>
    decreases s.len(),
{
    if s.len() > 0 && is_blank(s[0]) {
        trim_start_spec(s.drop_first())
    } else {
        s
    }
}

/// `s` without blank characters on either end.
pub open spec fn trim_spec(s: Seq<char>) -> Seq<char> {
    trim_start_spec(trim_end_spec(s))
}

proof fn lemma_trim_end_at(s: Seq<char>, b: int)
    requires
        0 <= b <= s.len(),
        forall|j: int| b <= j < s.len() ==> is_blank(#[trigger] s[j]),
        b > 0 ==> !is_blank(s[b - 1]),
    ensures
        trim_end_spec(s) == s.take(b),
    decreases s.len(),
{
    if b == s.len() {
        if s.len() > 0 && is_blank(s.last()) {
            assert forall|j: int| b - 1 <= j < s.drop_last().len() implies is_blank(
                #[trigger] s.drop_last()[j],
            ) by {
                assert(s.drop_last()[j] == s[j]);
            }
            lemma_trim_end_at(s.drop_last(), b - 1);
            assert(s.drop_last().take(b - 1) =~= s.take(b - 1));
            assert(trim_end_spec(s) =~= s.take(b - 1));
            assert(false);
        } else {
            assert(s.take(b) =~= s);
        }
    } else {
        assert(is_blank(s.last()));
        assert forall|j: int| b <= j < s.drop_last().len() implies is_blank(
            #[trigger] s.drop_last()[j],
        ) by {
            assert(s.drop_last()[j] == s[j]);
        }
        if b > 0 {
            assert(s.drop_last()[b - 1] == s[b - 1]);
        }
        lemma_trim_end_at(s.drop_last(), b);
        assert(s.drop_last().take(b) =~= s.take(b));
    }
}

proof fn lemma_trim_start_at(s: Seq<char>, a: int)
    requires
        0 <= a <= s.len(),
        forall|j: int| 0 <= j < a ==> is_blank(#[trigger] s[j]),
        a < s.len() ==> !is_blank(s[a]),
    ensures
        trim_start_spec(s) == s.skip(a),
    decreases a,
{
    if a == 0 {
        assert(s.skip(0) =~= s);
    } else {
        assert(is_blank(s[0]));
        assert forall|j: int| 0 <= j < a - 1 implies is_blank(#[trigger] s.drop_first()[j]) by {
            assert(s.drop_first()[j] == s[j + 1]);
        }
        if a - 1 < s.drop_first().len() {
            assert(s.drop_first()[a - 1] == s[a]);
        }
        lemma_trim_start_at(s.drop_first(), a - 1);
        assert(s.drop_first().skip(a - 1) =~= s.skip(a));
    }
}

/// Whether the character is blank, decided.
fn is_blank_of(c: char) -> (r: bool)
    ensures
        r == is_blank(c),
{
    c == ' ' || c == '\t' || c == '\r' || c == '\n'
}

/// `s` without blank characters on either end, as console answers are read.
pub fn trim_blank<'a>(s: &'a str) -> (t: &'a str)
    ensures
        t@ == trim_spec(s@),
{
    let n: usize = s.unicode_len();
    let mut b: usize = n;
    while b > 0 && is_blank_of(s.get_char(b - 1))
        invariant
            b <= n,
            n == s@.len(),
            forall|j: int| b <= j < n ==> is_blank(#[trigger] s@[j]),
        decreases b,
    {
        b = b - 1;
    }
    proof {
        lemma_trim_end_at(s@, b as int);
    }
    let mut a: usize = 0;
    while a < b && is_blank_of(s.get_char(a))
        invariant
            a <= b,
            b <= n,
            n == s@.len(),
            forall|j: int| 0 <= j < a ==> is_blank(#[trigger] s@[j]),
        decreases b - a,
    {
        a = a + 1;
    }
    let t = s.substring_char(a, b);
    proof {
        assert forall|j: int| 0 <= j < a implies is_blank(#[trigger] s@.take(b as int)[j]) by {
            assert(s@.take(b as int)[j] == s@[j]);
        }
        if a < b {
            assert(s@.take(b as int)[a as int] == s@[a as int]);
        }
        lemma_trim_start_at(s@.take(b as int), a as int);
        assert(t@ =~= s@.take(b as int).skip(a as int));
    }
    t
}

} // verus!
