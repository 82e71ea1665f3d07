//! The rolling two-week aggregation over the session log: load and sort the
//! log lines, locate the start of the trailing window by binary search with
//! a day-by-day fallback, and sum the durations of the records inside the
//! window.
use crate::dates::date_le;
use crate::dates::date_lt;
use crate::dates::date_str;
use crate::dates::date_string;
use crate::dates::date_wf;
use crate::dates::last_date;
use crate::dates::lemma_date_str_order;
use crate::dates::lemma_next_date_successor;
use crate::dates::next_date;
use crate::dates::succ;
use crate::dates::two_weeks_before;
use crate::dates::window_start;
use crate::dates::Date;
use crate::text::date_token;
use crate::text::duration_token;
use crate::text::duration_token_of;
use crate::text::lemma_lex_le_lt_transitive;
use crate::text::lemma_lex_lt_le_transitive;
use crate::text::lemma_lex_lt_asymmetric;
use crate::text::lemma_lex_lt_at;
use crate::text::lemma_lex_lt_connected;
use crate::text::lemma_lex_lt_decompose;
use crate::text::lemma_lex_lt_irreflexive;
use crate::text::lemma_lex_lt_prefix;
use crate::text::lemma_sort_lines_spec_ensures;
use crate::text::lemma_token_len_bounds;
use crate::text::lex_cmp;
use crate::text::lex_le;
use crate::text::lex_lt;
use crate::text::line_sorted;
use crate::text::parse_seconds_token;
use crate::text::parse_secs;
use crate::text::sort_lines;
use crate::text::sort_lines_spec;
use crate::text::split_lines;
use crate::text::split_nl;
use crate::text::token_end;
use crate::text::token_len;
use crate::text::token_of;
use crate::text::views;
use crate::text::LineOrder;
use vstd::prelude::*;

verus! {

/// Why an aggregation run failed.
#[derive(Debug, Clone, Copy, PartialEq, Eq, Structural)]
pub enum CalcError {
    /// A record inside the window carries a duration that does not denote a
    /// count of seconds, or the total does not fit in a `u64`.
    DataCorruption,
    /// No record exists on or after the window start through today.
    WindowStartNotFound,
}

/// The date token of the line holds no character below the space: true of
/// every serialized session record, including one with a corrupt duration.
pub open spec fn token_clean(l: Seq<char>) -> bool {
    forall|i: int| 0 <= i < token_len(l) ==> !(' ' > #[trigger] l[i])
}

pub open spec fn all_tokens_clean(ls: Seq<Seq<char>>) -> bool {
    forall|i: int| 0 <= i < ls.len() ==> token_clean(#[trigger] ls[i])
}

/// The date tokens of the lines are in non-decreasing order.
pub open spec fn tokens_sorted(ls: Seq<Seq<char>>) -> bool {
    forall|i: int, j: int|
        0 <= i <= j < ls.len() ==> lex_le(token_of(#[trigger] ls[i]), token_of(#[trigger] ls[j]))
}

/// The token names a date of the window `[start, today]`.
pub open spec fn in_window(tok: Seq<char>, start: Date, today: Date) -> bool {
    exists|d: Date|
        date_wf(d) && date_le(start, d) && date_le(d, today) && tok == #[trigger] date_str(d)
}

/// The seconds a log line contributes to the window sum: the value of its
/// duration token when its date token lies in the window, and zero otherwise.
pub open spec fn line_amount(l: Seq<char>, start: Date, today: Date) -> int {
    if in_window(token_of(l), start, today) {
        match parse_secs(duration_token(l)) {
            Some(v) => v as int,
            None => 0,
        }
    } else {
        0
    }
}

/// Every line whose date token lies in the window has a readable duration.
pub open spec fn window_ok(ls: Seq<Seq<char>>, start: Date, today: Date) -> bool {
    forall|i: int|
        0 <= i < ls.len() && in_window(token_of(#[trigger] ls[i]), start, today) ==> parse_secs(
            duration_token(ls[i]),
        ) is Some
}

/// The total seconds of all lines whose date token lies in the window.
pub open spec fn window_sum(ls: Seq<Seq<char>>, start: Date, today: Date) -> int
    decreases ls.len(),
{
    if ls.len() == 0 {
        0
    } else {
        window_sum(ls.drop_last(), start, today) + line_amount(ls.last(), start, today)
    }
}

/// The loaded view of the log: its text split at newlines, the empty segment
/// of a trailing newline dropped, and the lines sorted lexicographically.
pub open spec fn load_spec(contents: Seq<char>) -> Seq<Seq<char>> {
    let raw = split_nl(contents);
    let trimmed = if raw.len() > 0 && raw.last().len() == 0 {
        raw.drop_last()
    } else {
        raw
    };
    sort_lines_spec(trimmed)
}

/// What a whole aggregation run returns, as a function of the log text and
/// of today's date alone.
pub open spec fn calc_spec(contents: Seq<char>, today: Date) -> Result<u64, CalcError> {
    let ls = load_spec(contents);
    let start = window_start(today);
    if ls.len() == 0 {
        Ok(0u64)
    } else if !all_tokens_clean(ls) {
        Err(CalcError::DataCorruption)
    } else if !(exists|i: int| 0 <= i < ls.len() && in_window(token_of(#[trigger] ls[i]), start, today)) {
        Err(CalcError::WindowStartNotFound)
    } else if !window_ok(ls, start, today) || window_sum(ls, start, today) > u64::MAX {
        Err(CalcError::DataCorruption)
    } else {
        Ok(window_sum(ls, start, today) as u64)
    }
}

/// Lines in lexicographic order have their date tokens in the same order,
/// as long as no date token holds a character below the space.
pub proof fn lemma_token_le(a: Seq<char>, b: Seq<char>)
    requires
        lex_le(a, b),
        token_clean(a),
    ensures
        lex_le(token_of(a), token_of(b)),
{
    let ta = token_of(a);
    let tb = token_of(b);
    lemma_token_len_bounds(a);
    lemma_token_len_bounds(b);
    lemma_lex_lt_connected(ta, tb);
    if lex_lt(tb, ta) {
        let k = lemma_lex_lt_decompose(tb, ta);
        assert forall|j: int| 0 <= j < k implies b[j] == a[j] by {
            assert(tb[j] == b[j]);
            assert(ta[j] == a[j]);
        }
        if k < tb.len() {
            assert(tb[k] == b[k]);
            assert(ta[k] == a[k]);
            lemma_lex_lt_at(b, a, k);
        } else {
            // the token of `b` is a proper prefix of the token of `a`
            if k == b.len() {
                lemma_lex_lt_prefix(b, a);
            } else {
                assert(b[k] == ' ');
                assert(a[k] == ta[k]);
                assert(a[k] != ' ');
                assert(!(' ' > a[k]));
                assert(b[k] < a[k]);
                lemma_lex_lt_at(b, a, k);
            }
        }
        lemma_lex_lt_asymmetric(a, b);
        lemma_lex_lt_irreflexive(a);
        assert(false);
    }
}

/// Sorting the log lines leaves their date tokens in non-decreasing order:
/// what holds of every log that only ever received serialized records.
pub proof fn lemma_sorted_lines_tokens_sorted(ls: Seq<Seq<char>>)
    requires
        line_sorted(ls),
        all_tokens_clean(ls),
    ensures
        tokens_sorted(ls),
{
    assert forall|i: int, j: int| 0 <= i <= j < ls.len() implies lex_le(
        token_of(#[trigger] ls[i]),
        token_of(#[trigger] ls[j]),
    ) by {
        lemma_token_le(ls[i], ls[j]);
    }
}

/// The sort invariant of the loaded log: whenever every date token is
/// clean, as the tokens of appended session records always are, the loaded
/// lines carry their date tokens in non-decreasing order.
pub proof fn lemma_load_tokens_sorted(contents: Seq<char>)
    requires
        all_tokens_clean(load_spec(contents)),
    ensures
        line_sorted(load_spec(contents)),
        tokens_sorted(load_spec(contents)),
{
    let raw = split_nl(contents);
    let trimmed = if raw.len() > 0 && raw.last().len() == 0 {
        raw.drop_last()
    } else {
        raw
    };
    lemma_sort_lines_spec_ensures(trimmed);
    lemma_sorted_lines_tokens_sorted(load_spec(contents));
}

/// Loads the log from its text: split at newlines, drop the empty segment a
/// trailing newline leaves, and sort the lines lexicographically.
pub fn load_log(contents: &str) -> (r: Vec<String>)
    ensures
        views(r@) == load_spec(contents@),
{
    let mut raw = split_lines(contents);
    if raw.len() > 0 && raw[raw.len() - 1].as_str().unicode_len() == 0 {
        proof {
            assert(views(raw@).last() == views(raw@)[raw@.len() - 1]);
        }
        raw.pop();
        proof {
            assert(views(raw@) =~= split_nl(contents@).drop_last());
        }
    }
    sort_lines(raw)
}

/// Binary search over the sorted log for the first line whose date token
/// equals `c_date`, with a rewind over the duplicate block.
pub fn date_binary_search(lines: &Vec<String>, c_date: &String) -> (r: Option<usize>)
    requires
        tokens_sorted(views(lines@)),
    ensures
        r matches Some(i) ==> i < lines@.len() && token_of(views(lines@)[i as int]) == c_date@ && (
        forall|j: int| 0 <= j < i ==> token_of(#[trigger] views(lines@)[j]) != c_date@),
        r is None ==> forall|j: int|
            0 <= j < lines@.len() ==> token_of(#[trigger] views(lines@)[j]) != c_date@,
{
    let ghost ls = views(lines@);
    let n: usize = lines.len();
    if n == 0 {
        return None;
    }
    let mut low: usize = 0;
    let mut high: usize = n - 1;
    let mut found: Option<usize> = None;
    while low <= high && found.is_none()
        invariant
            tokens_sorted(ls),
            ls == views(lines@),
            ls.len() == n,
            n == lines@.len(),
            low <= n,
            high < n,
            forall|j: int| 0 <= j < low ==> lex_lt(token_of(#[trigger] ls[j]), c_date@),
            forall|j: int| high < j < n ==> lex_lt(c_date@, token_of(#[trigger] ls[j])),
            found matches Some(i) ==> i < n && token_of(ls[i as int]) == c_date@,
        decreases high + 1 - low, (if found.is_none() { 1int } else { 0int }),
    {
        let mid: usize = low + (high - low) / 2;
        let tok = date_token(lines[mid].as_str());
        match lex_cmp(tok, c_date.as_str()) {
            LineOrder::Same => {
                found = Some(mid);
            },
            LineOrder::Before => {
                proof {
                    assert forall|j: int| 0 <= j < mid + 1 implies lex_lt(
                        token_of(#[trigger] ls[j]),
                        c_date@,
                    ) by {
                        lemma_lex_le_lt_transitive(token_of(ls[j]), token_of(ls[mid as int]), c_date@);
                    }
                }
                low = mid + 1;
            },
            LineOrder::After => {
                proof {
                    assert forall|j: int| mid <= j < n implies lex_lt(
                        c_date@,
                        token_of(#[trigger] ls[j]),
                    ) by {
                        assert(lex_le(token_of(ls[mid as int]), token_of(ls[j])));
                        lemma_lex_lt_le_transitive(
                            c_date@,
                            token_of(ls[mid as int]),
                            token_of(ls[j]),
                        );
                    }
                }
                if mid == 0 {
                    proof {
                        assert forall|j: int| 0 <= j < n implies token_of(#[trigger] ls[j])
                            != c_date@ by {
                            lemma_lex_lt_irreflexive(c_date@);
                        }
                    }
                    return None;
                }
                high = mid - 1;
            },
        }
    }
    match found {
        Some(f) => {
            // rewind over the duplicate block to its first line
            let mut idx: usize = f;
            while idx > 0 && matches!(
                lex_cmp(date_token(lines[idx - 1].as_str()), c_date.as_str()),
                LineOrder::Same,
            )
                invariant
                    tokens_sorted(ls),
                    ls == views(lines@),
                    n == lines@.len(),
                    idx < n,
                    token_of(ls[idx as int]) == c_date@,
                decreases idx,
            {
                idx = idx - 1;
            }
            proof {
                assert forall|j: int| 0 <= j < idx implies token_of(#[trigger] ls[j])
                    != c_date@ by {
                    assert(lex_le(token_of(ls[j]), token_of(ls[idx - 1])));
                    assert(token_of(ls[idx - 1]) != c_date@);
                    assert(lex_le(token_of(ls[idx - 1]), token_of(ls[idx as int])));
                    lemma_lex_lt_connected(token_of(ls[idx - 1]), c_date@);
                    assert(lex_lt(token_of(ls[idx - 1]), c_date@));
                    lemma_lex_le_lt_transitive(token_of(ls[j]), token_of(ls[idx - 1]), c_date@);
                    lemma_lex_lt_irreflexive(c_date@);
                }
            }
            Some(idx)
        },
        None => {
            proof {
                assert forall|j: int| 0 <= j < n implies token_of(#[trigger] ls[j]) != c_date@ by {
                    lemma_lex_lt_irreflexive(c_date@);
                    lemma_lex_lt_irreflexive(token_of(ls[j]));
                }
            }
            None
        },
    }
}

/// A prefix of the log never sums to more than the whole log.
pub proof fn lemma_window_sum_prefix(ls: Seq<Seq<char>>, k: int, start: Date, today: Date)
    requires
        0 <= k <= ls.len(),
    ensures
        window_sum(ls.take(k), start, today) <= window_sum(ls, start, today),
    decreases ls.len() - k,
{
    if k < ls.len() {
        lemma_window_sum_prefix(ls, k + 1, start, today);
        assert(ls.take(k + 1).drop_last() =~= ls.take(k));
        assert(ls.take(k + 1).last() == ls[k]);
    } else {
        assert(ls.take(k) =~= ls);
    }
}

/// Lines before the window start contribute nothing: the sum over the tail
/// equals the sum over the whole log.
pub proof fn lemma_window_sum_skip(ls: Seq<Seq<char>>, k: int, start: Date, today: Date)
    requires
        0 <= k <= ls.len(),
        forall|j: int| 0 <= j < k ==> !in_window(token_of(#[trigger] ls[j]), start, today),
    ensures
        window_sum(ls.skip(k), start, today) == window_sum(ls, start, today),
    decreases ls.len(),
{
    if k == 0 {
        assert(ls.skip(0) =~= ls);
    } else if k == ls.len() {
        assert(ls.skip(k) =~= Seq::<Seq<char>>::empty());
        assert forall|j: int| 0 <= j < k - 1 implies !in_window(
            token_of(#[trigger] ls.drop_last()[j]),
            start,
            today,
        ) by {
            assert(ls.drop_last()[j] == ls[j]);
        }
        lemma_window_sum_skip(ls.drop_last(), k - 1, start, today);
        assert(ls.drop_last().skip(k - 1) =~= Seq::<Seq<char>>::empty());
        assert(ls.last() == ls[k - 1]);
        assert(line_amount(ls.last(), start, today) == 0);
    } else {
        assert forall|j: int| 0 <= j < k implies !in_window(
            token_of(#[trigger] ls.drop_last()[j]),
            start,
            today,
        ) by {
            assert(ls.drop_last()[j] == ls[j]);
        }
        lemma_window_sum_skip(ls.drop_last(), k, start, today);
        assert(ls.skip(k).drop_last() =~= ls.drop_last().skip(k));
        assert(ls.skip(k).last() == ls.last());
        assert(ls.skip(k).len() > 0);
    }
}

/// Likewise, readability of every window record is decided by the tail.
pub proof fn lemma_window_ok_skip(ls: Seq<Seq<char>>, k: int, start: Date, today: Date)
    requires
        0 <= k <= ls.len(),
        forall|j: int| 0 <= j < k ==> !in_window(token_of(#[trigger] ls[j]), start, today),
    ensures
        window_ok(ls, start, today) == window_ok(ls.skip(k), start, today),
{
    if window_ok(ls.skip(k), start, today) {
        assert forall|i: int|
            0 <= i < ls.len() && in_window(token_of(#[trigger] ls[i]), start, today) implies
            parse_secs(duration_token(ls[i])) is Some by {
            if i >= k {
                assert(ls.skip(k)[i - k] == ls[i]);
            }
        }
    }
    if window_ok(ls, start, today) {
        assert forall|i: int|
            0 <= i < ls.skip(k).len() && in_window(
                token_of(#[trigger] ls.skip(k)[i]),
                start,
                today,
            ) implies parse_secs(duration_token(ls.skip(k)[i])) is Some by {
            assert(ls.skip(k)[i] == ls[k + i]);
        }
    }
}

/// Whether the token names a date of the window, decided by probing the
/// window day by day.
fn in_window_check(tok: &str, start: Date, today: Date) -> (r: bool)
    requires
        date_wf(start),
        date_wf(today),
    ensures
        r == in_window(tok@, start, today),
{
    if !crate::dates::date_le_of(start, today) {
        proof {
            if in_window(tok@, start, today) {
                let d = choose|d: Date|
                    date_wf(d) && date_le(start, d) && date_le(d, today) && tok@ == #[trigger] date_str(d);
                assert(false);
            }
        }
        return false;
    }
    let mut cur = start;
    loop
        invariant
            date_wf(start),
            date_wf(today),
            date_wf(cur),
            date_le(start, cur),
            date_le(cur, today),
            forall|d: Date|
                date_wf(d) && date_le(start, d) && date_lt(d, cur) ==> tok@ != #[trigger] date_str(
                    d,
                ),
        decreases 9999 - cur.year, 12 - cur.month, 31 - cur.day,
    {
        let cs = date_string(cur);
        if matches!(lex_cmp(tok, cs.as_str()), LineOrder::Same) {
            proof {
                assert(tok@ == date_str(cur));
            }
            return true;
        }
        if cur == today {
            proof {
                if in_window(tok@, start, today) {
                    let d = choose|d: Date|
                        date_wf(d) && date_le(start, d) && date_le(d, today) && tok@
                            == #[trigger] date_str(d);
                    if d == cur {
                        assert(tok@ == cs@);
                        assert(false);
                    } else {
                        assert(date_lt(d, cur));
                        assert(false);
                    }
                }
            }
            return false;
        }
        proof {
            assert(cur != last_date());
        }
        let nxt = succ(cur);
        proof {
            assert forall|d: Date|
                date_wf(d) && date_le(start, d) && date_lt(d, next_date(cur)) implies tok@
                != #[trigger] date_str(d) by {
                if date_lt(cur, d) {
                    lemma_next_date_successor(cur, d);
                } else if d == cur {
                    assert(tok@ != cs@);
                }
            }
        }
        cur = nxt;
    }
}

/// Probes the window day by day from its start and returns the index that
/// the binary search finds for the first date that has a record: the lowest
/// index of any line whose date token lies in the window.
pub fn closest_date(lines: &Vec<String>, today: Date) -> (r: Option<usize>)
    requires
        tokens_sorted(views(lines@)),
        date_wf(today),
    ensures
        r matches Some(i) ==> i < lines@.len() && in_window(
            token_of(views(lines@)[i as int]),
            window_start(today),
            today,
        ) && (forall|j: int|
            0 <= j < i ==> !in_window(
                token_of(#[trigger] views(lines@)[j]),
                window_start(today),
                today,
            )),
        r is None ==> forall|j: int|
            0 <= j < lines@.len() ==> !in_window(
                token_of(#[trigger] views(lines@)[j]),
                window_start(today),
                today,
            ),
{
    let ghost ls = views(lines@);
    let start = two_weeks_before(today);
    let mut cur = start;
    loop
        invariant
            tokens_sorted(ls),
            ls == views(lines@),
            date_wf(today),
            date_wf(cur),
            start == window_start(today),
            date_wf(start),
            date_le(start, cur),
            date_le(cur, today),
            forall|d: Date, j: int|
                date_wf(d) && date_le(start, d) && date_lt(d, cur) && 0 <= j < ls.len()
                    ==> token_of(#[trigger] ls[j]) != #[trigger] date_str(d),
        decreases 9999 - cur.year, 12 - cur.month, 31 - cur.day,
    {
        let cs = date_string(cur);
        match date_binary_search(lines, &cs) {
            Some(i) => {
                proof {
                    assert(token_of(ls[i as int]) == date_str(cur));
                    assert(in_window(token_of(ls[i as int]), start, today));
                    assert forall|j: int| 0 <= j < i implies !in_window(
                        token_of(#[trigger] ls[j]),
                        start,
                        today,
                    ) by {
                        if in_window(token_of(ls[j]), start, today) {
                            let d = choose|d: Date|
                                date_wf(d) && date_le(start, d) && date_le(d, today) && token_of(
                                    ls[j],
                                ) == #[trigger] date_str(d);
                            if date_lt(d, cur) {
                                assert(false);
                            } else if d == cur {
                                assert(token_of(ls[j]) == cs@);
                                assert(false);
                            } else {
                                assert(date_lt(cur, d));
                                lemma_date_str_order(cur, d);
                                assert(lex_lt(token_of(ls[i as int]), token_of(ls[j])));
                                assert(lex_le(token_of(ls[j]), token_of(ls[i as int])));
                                lemma_lex_lt_le_transitive(
                                    token_of(ls[i as int]),
                                    token_of(ls[j]),
                                    token_of(ls[i as int]),
                                );
                                lemma_lex_lt_irreflexive(token_of(ls[i as int]));
                                assert(false);
                            }
                        }
                    }
                }
                return Some(i);
            },
            None => {},
        }
        if cur == today {
            proof {
                assert forall|j: int| 0 <= j < ls.len() implies !in_window(
                    token_of(#[trigger] ls[j]),
                    start,
                    today,
                ) by {
                    if in_window(token_of(ls[j]), start, today) {
                        let d = choose|d: Date|
                            date_wf(d) && date_le(start, d) && date_le(d, today) && token_of(ls[j])
                                == #[trigger] date_str(d);
                        if d == cur {
                            assert(token_of(ls[j]) == cs@);
                            assert(false);
                        } else {
                            assert(date_lt(d, cur));
                            assert(false);
                        }
                    }
                }
            }
            return None;
        }
        proof {
            assert(cur != last_date());
        }
        let nxt = succ(cur);
        proof {
            assert forall|d: Date, j: int|
                date_wf(d) && date_le(start, d) && date_lt(d, next_date(cur)) && 0 <= j < ls.len()
                    implies token_of(#[trigger] ls[j]) != #[trigger] date_str(d) by {
                if date_lt(cur, d) {
                    lemma_next_date_successor(cur, d);
                } else if d == cur {
                    assert(token_of(ls[j]) != cs@);
                }
            }
        }
        cur = nxt;
    }
}

/// Sums the durations of every line from `from` onward whose date token
/// lies in the window, and fails on the first one whose duration does not
/// read as a count of seconds, or when the total leaves `u64`.
pub fn sum_total_seconds(lines: &Vec<String>, from: usize, start: Date, today: Date) -> (r: Result<
    u64,
    CalcError,
>)
    requires
        from <= lines@.len(),
        date_wf(start),
        date_wf(today),
    ensures
        r == (if !window_ok(views(lines@).skip(from as int), start, today) || window_sum(
            views(lines@).skip(from as int),
            start,
            today,
        ) > u64::MAX {
            Err::<u64, CalcError>(CalcError::DataCorruption)
        } else {
            Ok::<u64, CalcError>(
                window_sum(views(lines@).skip(from as int), start, today) as u64,
            )
        }),
{
    let ghost sl = views(lines@).skip(from as int);
    let n: usize = lines.len();
    let mut j: usize = from;
    let mut acc: u64 = 0;
    while j < n
        invariant
            from <= j <= n,
            n == lines@.len(),
            sl == views(lines@).skip(from as int),
            date_wf(start),
            date_wf(today),
            window_ok(sl.take(j as int - from as int), start, today),
            acc as int == window_sum(sl.take(j as int - from as int), start, today),
        decreases n - j,
    {
        let ghost pre = sl.take(j as int - from as int);
        let ghost pre1 = sl.take(j as int + 1 - from as int);
        proof {
            assert(pre1.drop_last() =~= pre);
            assert(pre1.last() == sl[j as int - from as int]);
            assert(sl[j as int - from as int] == views(lines@)[j as int]);
        }
        let tok = date_token(lines[j].as_str());
        if in_window_check(tok, start, today) {
            let dtok = duration_token_of(lines[j].as_str());
            match parse_seconds_token(dtok) {
                Some(v) => {
                    if acc > u64::MAX - v {
                        proof {
                            assert(line_amount(pre1.last(), start, today) == v as int);
                            assert(window_sum(pre1, start, today) == acc as int + v as int);
                            lemma_window_sum_prefix(sl, j as int + 1 - from as int, start, today);
                        }
                        return Err(CalcError::DataCorruption);
                    }
                    acc = acc + v;
                    proof {
                        assert(line_amount(pre1.last(), start, today) == v as int);
                        assert forall|i: int|
                            0 <= i < pre1.len() && in_window(
                                token_of(#[trigger] pre1[i]),
                                start,
                                today,
                            ) implies parse_secs(duration_token(pre1[i])) is Some by {
                            if i < pre.len() {
                                assert(pre1[i] == pre[i]);
                            }
                        }
                    }
                },
                None => {
                    proof {
                        assert(in_window(token_of(sl[j as int - from as int]), start, today));
                        assert(!(parse_secs(duration_token(sl[j as int - from as int])) is Some));
                        assert(!window_ok(sl, start, today));
                    }
                    return Err(CalcError::DataCorruption);
                },
            }
        } else {
            proof {
                assert(line_amount(pre1.last(), start, today) == 0);
                assert forall|i: int|
                    0 <= i < pre1.len() && in_window(
                        token_of(#[trigger] pre1[i]),
                        start,
                        today,
                    ) implies parse_secs(duration_token(pre1[i])) is Some by {
                    if i < pre.len() {
                        assert(pre1[i] == pre[i]);
                    }
                }
            }
        }
        j = j + 1;
    }
    proof {
        assert(sl.take(n as int - from as int) =~= sl);
    }
    Ok(acc)
}

/// Whether the date token of the line holds no character below the space.
fn token_clean_check(line: &str) -> (r: bool)
    ensures
        r == token_clean(line@),
{
    let k: usize = token_end(line);
    proof {
        lemma_token_len_bounds(line@);
    }
    let mut i: usize = 0;
    while i < k
        invariant
            i <= k,
            k as int == token_len(line@),
            k as int <= line@.len(),
            forall|j: int| 0 <= j < i ==> !(' ' > #[trigger] line@[j]),
        decreases k - i,
    {
        let c = line.get_char(i);
        if ' ' > c {
            return false;
        }
        i = i + 1;
    }
    true
}

/// Computes the seconds recorded in the trailing two-week window of the
/// session log, from the log's text and today's date: the lines are split
/// and sorted, the window start is located by binary search with the
/// closest-date fallback, and the window's durations are summed. An empty
/// log yields zero; a log with no record in the window is an error, never a
/// silent zero; a window record whose duration does not read as a count of
/// seconds is an error, never skipped.
pub fn calculate_past_two(contents: &str, today: Date) -> (r: Result<u64, CalcError>)
    requires
        date_wf(today),
    ensures
        r == calc_spec(contents@, today),
{
    let lines = load_log(contents);
    let ghost ls = views(lines@);
    if lines.len() == 0 {
        return Ok(0);
    }
    proof {
        let raw = split_nl(contents@);
        let trimmed = if raw.len() > 0 && raw.last().len() == 0 {
            raw.drop_last()
        } else {
            raw
        };
        lemma_sort_lines_spec_ensures(trimmed);
        assert(line_sorted(ls));
    }
    let mut ci: usize = 0;
    while ci < lines.len()
        invariant
            ci <= lines@.len(),
            ls == views(lines@),
            ls == load_spec(contents@),
            ls.len() > 0,
            date_wf(today),
            forall|i: int| 0 <= i < ci ==> token_clean(#[trigger] ls[i]),
        decreases lines@.len() - ci,
    {
        if !token_clean_check(lines[ci].as_str()) {
            proof {
                assert(!token_clean(ls[ci as int]));
            }
            return Err(CalcError::DataCorruption);
        }
        ci = ci + 1;
    }
    proof {
        assert(all_tokens_clean(ls));
        lemma_sorted_lines_tokens_sorted(ls);
    }
    let start = two_weeks_before(today);
    let cs = date_string(start);
    let found: usize;
    match date_binary_search(&lines, &cs) {
        Some(i) => {
            found = i;
            proof {
                assert(token_of(ls[i as int]) == date_str(start));
                assert(in_window(token_of(ls[i as int]), start, today));
                assert forall|j: int| 0 <= j < i implies !in_window(
                    token_of(#[trigger] ls[j]),
                    start,
                    today,
                ) by {
                    if in_window(token_of(ls[j]), start, today) {
                        let d = choose|d: Date|
                            date_wf(d) && date_le(start, d) && date_le(d, today) && token_of(ls[j])
                                == #[trigger] date_str(d);
                        if d == start {
                            assert(token_of(ls[j]) == cs@);
                            assert(false);
                        } else {
                            assert(date_lt(start, d));
                            lemma_date_str_order(start, d);
                            assert(lex_lt(token_of(ls[i as int]), token_of(ls[j])));
                            assert(lex_le(token_of(ls[j]), token_of(ls[i as int])));
                            lemma_lex_lt_le_transitive(
                                token_of(ls[i as int]),
                                token_of(ls[j]),
                                token_of(ls[i as int]),
                            );
                            lemma_lex_lt_irreflexive(token_of(ls[i as int]));
                            assert(false);
                        }
                    }
                }
            }
        },
        None => {
            match closest_date(&lines, today) {
                Some(i) => {
                    found = i;
                },
                None => {
                    return Err(CalcError::WindowStartNotFound);
                },
            }
        },
    }
    proof {
        assert(in_window(token_of(ls[found as int]), start, today));
        assert(exists|i: int|
            0 <= i < ls.len() && in_window(token_of(#[trigger] ls[i]), start, today));
        lemma_window_sum_skip(ls, found as int, start, today);
        lemma_window_ok_skip(ls, found as int, start, today);
    }
    sum_total_seconds(&lines, found, start, today)
}

} // verus!
