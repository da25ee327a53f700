use vstd::prelude::*;

use crate::registry::PlayerRegistry;
use vstd::string::StrSliceExecFns;

verus! {

broadcast use vstd::seq_lib::group_seq_properties;

/// What `str::trim` makes of a text.
pub uninterp spec fn trimmed(s: Seq<char>) -> Seq<char>;

/// Relies on `str::trim`: the text without its leading and trailing whitespace.
#[verifier::external_body]
fn trim_text(s: &str) -> (r: &str)
    ensures
        r@ == trimmed(s@),
{
    s.trim()
}

/// The parts of `t` before and after its first comma, if it has one.
pub open spec fn split_first_comma(t: Seq<char>) -> Option<(Seq<char>, Seq<char>)> {
    if t.contains(',') {
        let p = choose|p: int| 0 <= p < t.len() && t[p] == ',' && !t.take(p).contains(',');
        Some((t.take(p), t.skip(p + 1)))
    } else {
        None
    }
}

/// Relies on `str::split_once`: splits at the first comma, which neither part keeps.
#[verifier::external_body]
fn split_comma<'a>(s: &'a str) -> (r: Option<(&'a str, &'a str)>)
    ensures
        match r {
            Some((a, b)) => s@ == a@ + seq![','] + b@ && !a@.contains(','),
            None => !s@.contains(','),
        },
{
    s.split_once(',')
}

proof fn lemma_split_first_comma(t: Seq<char>, a: Seq<char>, b: Seq<char>)
    requires
        t == a + seq![','] + b,
        !a.contains(','),
    ensures
        split_first_comma(t) == Some((a, b)),
{
    let n = a.len() as int;
    assert(t[n] == ',');
    assert(t.take(n) =~= a);
    let p = choose|p: int| 0 <= p < t.len() && t[p] == ',' && !t.take(p).contains(',');
    if p < n {
        assert(t.take(n)[p] == ',');
    } else if p > n {
        assert(t.take(p)[n] == ',');
    }
    assert(t.skip(n + 1) =~= b);
}

/// An ASCII decimal digit.
pub open spec fn is_digit(c: char) -> bool {
    '0' <= c && c <= '9'
}

/// The value of a string of decimal digits.
pub open spec fn digits_value(d: Seq<char>) -> int
    decreases d.len(),
{
    if d.len() == 0 {
        0
    } else {
        digits_value(d.drop_last()) * 10 + ((d.last() as u32) as int - ('0' as u32) as int)
    }
}

/// A text without its leading `+`, if it has one.
pub open spec fn unsigned_part(s: Seq<char>) -> Seq<char> {
    if s.len() > 0 && s[0] == '+' {
        s.drop_first()
    } else {
        s
    }
}

/// Every character of `d` is a decimal digit.
pub open spec fn all_digits(d: Seq<char>) -> bool {
    forall|i: int| 0 <= i < d.len() ==> #[trigger] is_digit(d[i])
}

/// A number as `usize::from_str` reads it: an optional `+`, then one or
/// more decimal digits whose value fits in a `usize`.
pub open spec fn decimal_index(s: Seq<char>) -> Option<usize> {
    let d = unsigned_part(s);
    if d.len() > 0 && all_digits(d) && digits_value(d) <= usize::MAX {
        Some(digits_value(d) as usize)
    } else {
        None
    }
}

proof fn lemma_digits_nonneg(d: Seq<char>)
    requires
        forall|k: int| 0 <= k < d.len() ==> #[trigger] is_digit(d[k]),
    ensures
        digits_value(d) >= 0,
    decreases d.len(),
{
    if d.len() > 0 {
        let init = d.drop_last();
        assert forall|k: int| 0 <= k < init.len() implies #[trigger] is_digit(init[k]) by {
            assert(init[k] == d[k]);
        }
        lemma_digits_nonneg(init);
        assert(is_digit(d[d.len() - 1]));
    }
}

proof fn lemma_digits_grow(d: Seq<char>, i: int)
    requires
        0 <= i <= d.len(),
        forall|k: int| 0 <= k < d.len() ==> #[trigger] is_digit(d[k]),
    ensures
        digits_value(d.take(i)) <= digits_value(d),
    decreases d.len() - i,
{
    if i < d.len() {
        lemma_digits_grow(d, i + 1);
        let t = d.take(i + 1);
        assert(t.drop_last() =~= d.take(i));
        assert forall|k: int| 0 <= k < i implies #[trigger] is_digit(d.take(i)[k]) by {
            assert(d.take(i)[k] == d[k]);
        }
        lemma_digits_nonneg(d.take(i));
        assert(t.last() == d[i]);
        assert(is_digit(d[i]));
    } else {
        assert(d.take(i) =~= d);
    }
}

/// Reads a number the way `usize::from_str` does (see [`decimal_index`]).
pub fn parse_index(s: &str) -> (r: Option<usize>)
    ensures
        r == decimal_index(s@),
{
    let n = s.unicode_len();
    let ghost text = s@;
    let mut start: usize = 0;
    if n > 0 && s.get_char(0) == '+' {
        start = 1;
    }
    let ghost d = unsigned_part(text);
    proof {
        if start == 0 {
            assert(d =~= text.skip(0));
        } else {
            assert(d =~= text.skip(1));
        }
    }
    if start >= n {
        return None;
    }
    let mut value: usize = 0;
    let mut i: usize = start;
    while i < n
        invariant
            start <= i <= n,
            n == text.len(),
            text == s@,
            d == text.skip(start as int),
            d == unsigned_part(s@),
            forall|k: int| 0 <= k < i - start ==> #[trigger] is_digit(d[k]),
            value == digits_value(d.take(i - start)),
        decreases n - i,
    {
        let c = s.get_char(i);
        let code = c as u32;
        proof {
            assert(d[i - start] == text[i as int]);
            lemma_digit_step(d, i - start);
        }
        if code < 48 || code > 57 {
            proof {
                assert(!is_digit(d[i - start]));
                lemma_non_digit_means_none(s@, d, i - start);
            }
            return None;
        }
        let digit = (code - 48) as usize;
        match value.checked_mul(10) {
            Some(tens) => {
                match tens.checked_add(digit) {
                    Some(next) => {
                        value = next;
                    },
                    None => {
                        proof {
                            lemma_overflow_means_none(s@, d, (i - start + 1) as int);
                        }
                        return None;
                    },
                }
            },
            None => {
                proof {
                    lemma_digits_nonneg(d.take(i - start));
                    lemma_overflow_means_none(s@, d, (i - start + 1) as int);
                }
                return None;
            },
        }
        i += 1;
    }
    proof {
        assert(d.take(i - start) =~= d);
    }
    Some(value)
}

proof fn lemma_overflow_means_none(s: Seq<char>, d: Seq<char>, i: int)
    requires
        d == unsigned_part(s),
        0 <= i <= d.len(),
        digits_value(d.take(i)) > usize::MAX,
    ensures
        decimal_index(s) is None,
{
    if decimal_index(s) is Some {
        lemma_digits_grow(d, i);
    }
}

proof fn lemma_non_digit_means_none(s: Seq<char>, d: Seq<char>, j: int)
    requires
        d == unsigned_part(s),
        0 <= j < d.len(),
        !is_digit(d[j]),
    ensures
        decimal_index(s) is None,
{
}

proof fn lemma_digit_step(d: Seq<char>, j: int)
    requires
        0 <= j < d.len(),
    ensures
        digits_value(d.take(j + 1)) == digits_value(d.take(j)) * 10 + ((d[j] as u32) as int - ('0' as u32) as int),
{
    assert(d.take(j + 1).drop_last() =~= d.take(j));
}

/// The number written in a progress file: the text, trimmed, read as a
/// number, or zero when it is not one.
pub fn index_from_trimmed(t: &str) -> (r: usize)
    ensures
        r == match decimal_index(t@) {
            Some(i) => i,
            None => 0,
        },
{
    match parse_index(t) {
        Some(i) => i,
        None => 0,
    }
}

/// Reads the index saved in a progress file (see [`index_from_trimmed`]).
pub fn parse_last_index(text: &str) -> (r: usize)
    ensures
        r == match decimal_index(trimmed(text@)) {
            Some(i) => i,
            None => 0,
        },
{
    index_from_trimmed(trim_text(text))
}

/// The name and id on a line of a player table: the trimmed line split at
/// its first comma, the part before it read as a number.
pub open spec fn row_of(line: Seq<char>) -> Option<(Seq<char>, usize)> {
    match split_first_comma(trimmed(line)) {
        Some((a, b)) => match decimal_index(a) {
            Some(id) => Some((b, id)),
            None => None,
        },
        None => None,
    }
}

/// The header line of a player table.
pub open spec fn is_header(line: Seq<char>) -> bool {
    trimmed(line) == "id,player_name"@
}

/// The rows read from the first `n` lines of a player table; the first
/// line is skipped when it is the header, and lines that are not rows are skipped.
#[verifier::opaque]
pub open spec fn table_rows(lines: Seq<String>, n: nat) -> Seq<(Seq<char>, usize)>
    decreases n,
{
    if n == 0 {
        Seq::empty()
    } else {
        let prev = table_rows(lines, (n - 1) as nat);
        let line = lines[n - 1]@;
        if n == 1 && is_header(line) {
            prev
        } else {
            match row_of(line) {
                Some(r) => prev.push(r),
                None => prev,
            }
        }
    }
}

/// Each name with the id of its last row.
pub open spec fn rows_map(rows: Seq<(Seq<char>, usize)>) -> Map<Seq<char>, usize>
    decreases rows.len(),
{
    if rows.len() == 0 {
        Map::empty()
    } else {
        rows_map(rows.drop_last()).insert(rows.last().0, rows.last().1)
    }
}

/// The largest id of `rows`, zero when there are none.
pub open spec fn max_id(rows: Seq<(Seq<char>, usize)>) -> usize
    decreases rows.len(),
{
    if rows.len() == 0 {
        0
    } else {
        let m = max_id(rows.drop_last());
        if rows.last().1 > m {
            rows.last().1
        } else {
            m
        }
    }
}

/// One past the largest id, when that fits.
pub open spec fn id_after(rows: Seq<(Seq<char>, usize)>) -> usize {
    if max_id(rows) < usize::MAX {
        (max_id(rows) + 1) as usize
    } else {
        usize::MAX
    }
}

/// Reads a line of a player table (see [`row_of`]).
pub fn parse_row(line: &String) -> (r: Option<(String, usize)>)
    ensures
        match r {
            Some((name, id)) => row_of(line@) == Some((name@, id)),
            None => row_of(line@) is None,
        },
{
    let t = trim_text(line.as_str());
    match split_comma(t) {
        Some((a, b)) => {
            proof {
                lemma_split_first_comma(t@, a@, b@);
            }
            match parse_index(a) {
                Some(id) => Some((b.to_owned(), id)),
                None => None,
            }
        },
        None => None,
    }
}

proof fn lemma_table_rows_step(lines: Seq<String>, i: nat)
    ensures
        table_rows(lines, 0) == Seq::<(Seq<char>, usize)>::empty(),
        table_rows(lines, i + 1) == if i == 0 && is_header(lines[i as int]@) {
            table_rows(lines, i)
        } else {
            match row_of(lines[i as int]@) {
                Some(r) => table_rows(lines, i).push(r),
                None => table_rows(lines, i),
            }
        },
{
    reveal(table_rows);
}

/// The rows of a player table (see [`table_rows`]) and their largest id.
fn read_rows(lines: &Vec<String>) -> (r: (Vec<(String, usize)>, usize))
    ensures
        r.0.len() == table_rows(lines@, lines.len() as nat).len(),
        forall|k: int| #![trigger r.0@[k]] 0 <= k < r.0.len() ==> r.0@[k].0@ == table_rows(lines@, lines.len() as nat)[k].0
            && r.0@[k].1 == table_rows(lines@, lines.len() as nat)[k].1,
        r.1 == max_id(table_rows(lines@, lines.len() as nat)),
{
    let header = "id,player_name".to_owned();
    let mut rows: Vec<(String, usize)> = Vec::new();
    let mut max: usize = 0;
    proof {
        lemma_table_rows_step(lines@, 0);
    }
    let mut i: usize = 0;
    while i < lines.len()
        invariant
            i <= lines.len(),
            header@ == "id,player_name"@,
            rows.len() == table_rows(lines@, i as nat).len(),
            forall|k: int| #![trigger rows@[k]] 0 <= k < rows.len() ==> rows@[k].0@ == table_rows(lines@, i as nat)[k].0
                && rows@[k].1 == table_rows(lines@, i as nat)[k].1,
            max == max_id(table_rows(lines@, i as nat)),
        decreases lines.len() - i,
    {
        let ghost spec_rows = table_rows(lines@, (i + 1) as nat);
        proof {
            lemma_table_rows_step(lines@, i as nat);
        }
        let skip = i == 0 && trim_text(lines[i].as_str()).to_owned() == header;
        if skip {
            proof {
                assert(spec_rows == table_rows(lines@, i as nat));
            }
        } else {
            match parse_row(&lines[i]) {
                Some((name, id)) => {
                    let ghost prev = rows@;
                    rows.push((name, id));
                    if id > max {
                        max = id;
                    }
                    proof {
                        assert(spec_rows == table_rows(lines@, i as nat).push((name@, id)));
                        assert(spec_rows.drop_last() =~= table_rows(lines@, i as nat));
                        assert forall|k: int| #![trigger rows@[k]] 0 <= k < rows.len() implies rows@[k].0@ == spec_rows[k].0
                            && rows@[k].1 == spec_rows[k].1 by {
                            if k < prev.len() {
                                assert(rows@[k] == prev[k]);
                            }
                        }
                    }
                },
                None => {
                    proof {
                        assert(spec_rows == table_rows(lines@, i as nat));
                    }
                },
            }
        }
        i += 1;
    }
    (rows, max)
}

/// Rebuilds a registry from the lines of a player table: each row gives
/// its name its id (a later row for the same name wins), and new names get
/// ids from one past the largest id read.
pub fn load_player_table(lines: &Vec<String>) -> (r: PlayerRegistry)
    ensures
        r.wf(),
        r@ == rows_map(table_rows(lines@, lines.len() as nat)),
        r.next() == id_after(table_rows(lines@, lines.len() as nat)),
{
    let (rows, max) = read_rows(lines);
    let ghost all = table_rows(lines@, lines.len() as nat);
    let next = if max < usize::MAX { max + 1 } else { usize::MAX };
    let mut registry = PlayerRegistry::new(next);
    let mut k: usize = 0;
    while k < rows.len()
        invariant
            k <= rows.len(),
            rows.len() == all.len(),
            forall|t: int| #![trigger rows@[t]] 0 <= t < rows.len() ==> rows@[t].0@ == all[t].0 && rows@[t].1 == all[t].1,
            max == max_id(all),
            next == id_after(all),
            registry.wf(),
            registry.next() == next,
            registry@ == rows_map(all.take(k as int)),
        decreases rows.len() - k,
    {
        proof {
            lemma_max_id_bound(all, k as int);
            assert(all.take(k + 1).drop_last() =~= all.take(k as int));
        }
        let name = rows[k].0.clone();
        registry.assign(name, rows[k].1);
        k += 1;
    }
    proof {
        assert(all.take(all.len() as int) =~= all);
    }
    registry
}

proof fn lemma_max_id_bound(rows: Seq<(Seq<char>, usize)>, k: int)
    requires
        0 <= k < rows.len(),
    ensures
        rows[k].1 <= max_id(rows),
    decreases rows.len(),
{
    if k < rows.len() - 1 {
        lemma_max_id_bound(rows.drop_last(), k);
    }
}

} // verus!
