//! What the command line tool shows: durations in words, and per-application
//! times in the order the user asked for.

use vstd::prelude::*;

use crate::session::{sessions_view, Session, SessionModel, State, StateModel};
use crate::text::push_char;

verus! {

/// The character of a decimal digit.
pub open spec fn digit_char(d: nat) -> char {
    if d == 0 {
        '0'
    } else if d == 1 {
        '1'
    } else if d == 2 {
        '2'
    } else if d == 3 {
        '3'
    } else if d == 4 {
        '4'
    } else if d == 5 {
        '5'
    } else if d == 6 {
        '6'
    } else if d == 7 {
        '7'
    } else if d == 8 {
        '8'
    } else {
        '9'
    }
}

/// The decimal notation of `n`, without leading zeros.
pub open spec fn decimal(n: nat) -> Seq<char>
    decreases n,
{
    if n < 10 {
        seq![digit_char(n)]
    } else {
        decimal(n / 10).push(digit_char(n % 10))
    }
}

/// The number that a string of decimal digits stands for.
pub open spec fn digits_value(d: Seq<char>) -> int
    decreases d.len(),
{
    if d.len() == 0 {
        0
    } else {
        digits_value(d.drop_last()) * 10 + ((d.last() as int) - ('0' as int))
    }
}

proof fn lemma_digit_value(d: nat)
    requires
        d < 10,
    ensures
        (digit_char(d) as int) - ('0' as int) == d,
        '0' <= digit_char(d) <= '9',
{
    assert(('0' as int) == 48);
    assert(('9' as int) == 57);
    assert(('1' as int) == 49);
    assert(('2' as int) == 50);
    assert(('3' as int) == 51);
    assert(('4' as int) == 52);
    assert(('5' as int) == 53);
    assert(('6' as int) == 54);
    assert(('7' as int) == 55);
    assert(('8' as int) == 56);
}

/// The decimal notation of `n` reads back as `n`: it is a non-empty string
/// of the digits `0` to `9`, standing for `n`, and starts with `0` only for
/// zero itself.
pub proof fn decimal_reads_back(n: nat)
    ensures
        decimal(n).len() > 0,
        forall|i: int| 0 <= i < decimal(n).len() ==> '0' <= #[trigger] decimal(n)[i] <= '9',
        digits_value(decimal(n)) == n,
        n > 0 ==> decimal(n)[0] != '0',
    decreases n,
{
    lemma_digit_value(n % 10);
    if n >= 10 {
        decimal_reads_back(n / 10);
        assert(n == (n / 10) * 10 + n % 10);
        let d = decimal(n);
        assert(d.drop_last() =~= decimal(n / 10));
        assert(d.last() == digit_char(n % 10));
        assert(digits_value(d) == digits_value(decimal(n / 10)) * 10 + ((digit_char(n % 10) as int)
            - ('0' as int)));
        assert forall|i: int| 0 <= i < d.len() implies '0' <= #[trigger] d[i] <= '9' by {
            if i < d.len() - 1 {
                assert(d[i] == decimal(n / 10)[i]);
            }
        }
        assert(d[0] == decimal(n / 10)[0]);
    } else {
        assert(decimal(n).drop_last() =~= Seq::<char>::empty());
        assert(n % 10 == n);
        assert(digits_value(Seq::<char>::empty()) == 0);
        assert(digits_value(decimal(n)) == digits_value(decimal(n).drop_last()) * 10 + ((
        digit_char(n) as int) - ('0' as int)));
    }
}

fn digit(d: u64) -> (c: char)
    requires
        d < 10,
    ensures
        c == digit_char(d as nat),
{
    if d == 0 {
        '0'
    } else if d == 1 {
        '1'
    } else if d == 2 {
        '2'
    } else if d == 3 {
        '3'
    } else if d == 4 {
        '4'
    } else if d == 5 {
        '5'
    } else if d == 6 {
        '6'
    } else if d == 7 {
        '7'
    } else if d == 8 {
        '8'
    } else {
        '9'
    }
}

/// Appends the decimal notation of `n` to `s`.
fn push_decimal(s: &mut String, n: u64)
    ensures
        final(s)@ == old(s)@ + decimal(n as nat),
    decreases n,
{
    if n >= 10 {
        push_decimal(s, n / 10);
    }
    push_char(s, digit(n % 10));
    assert(n < 10 ==> decimal(n as nat) == seq![digit_char(n as nat)]);
    assert(final(s)@ =~= old(s)@ + decimal(n as nat));
}

/// `n` followed by the unit letter `u`, or nothing when `n` is zero.
pub open spec fn amount(n: nat, u: char) -> Seq<char> {
    if n > 0 {
        decimal(n).push(u)
    } else {
        Seq::empty()
    }
}

/// A number of seconds in hours, minutes and seconds, such as `1h2m3s`,
/// leaving out the zero amounts; zero seconds is `0s`.
pub open spec fn duration_text(seconds: nat) -> Seq<char> {
    if seconds == 0 {
        seq!['0', 's']
    } else {
        amount(seconds / 3600, 'h') + amount((seconds % 3600) / 60, 'm') + amount(seconds % 60, 's')
    }
}

/// The text of a duration is never empty; it is `0s` for zero seconds; it
/// starts with the whole number of hours followed by `h` when there is at
/// least one hour (hours are not reduced to days); it has no `h` below one
/// hour; and it ends with the seconds past the last whole minute followed by
/// `s` when there are any.
pub proof fn duration_text_parts(n: nat)
    ensures
        duration_text(n).len() > 0,
        n == 0 ==> duration_text(n) == seq!['0', 's'],
        n >= 3600 ==> duration_text(n).take(decimal(n / 3600).len() + 1int) == decimal(n / 3600).push(
            'h',
        ),
        0 < n < 3600 ==> !duration_text(n).contains('h'),
        n % 60 > 0 ==> duration_text(n).skip(duration_text(n).len() - decimal(n % 60).len() - 1)
            == decimal(n % 60).push('s'),
{
    if n > 0 {
        let h = n / 3600;
        let m = (n % 3600) / 60;
        let sec = n % 60;
        decimal_reads_back(h);
        decimal_reads_back(m);
        decimal_reads_back(sec);
        assert(n % 3600 % 60 == n % 60);
        let a = amount(h, 'h');
        let b = amount(m, 'm');
        let c = amount(sec, 's');
        assert(duration_text(n) == a + b + c);
        if h == 0 && m == 0 {
            assert(sec > 0);
        }
        if n >= 3600 {
            assert((a + b + c).take(a.len() as int) =~= a);
        }
        if n < 3600 {
            assert(a.len() == 0);
            assert(!(a + b + c).contains('h')) by {
                if (a + b + c).contains('h') {
                    let k = choose|k: int| 0 <= k < (a + b + c).len() && (a + b + c)[k] == 'h';
                    if m > 0 && k < b.len() {
                        if k == b.len() - 1 {
                            assert(b[k] == 'm');
                        } else {
                            assert(b[k] == decimal(m)[k]);
                        }
                    } else if sec > 0 {
                        let k2 = k - b.len();
                        if k2 == c.len() - 1 {
                            assert(c[k2] == 's');
                        } else {
                            assert(c[k2] == decimal(sec)[k2]);
                        }
                    }
                }
            }
        }
        if sec > 0 {
            let t = a + b + c;
            assert(t.skip(t.len() - c.len()) =~= c);
        }
    }
}

fn push_amount(s: &mut String, n: u64, u: char)
    ensures
        final(s)@ == old(s)@ + amount(n as nat, u),
{
    if n > 0 {
        push_decimal(s, n);
        push_char(s, u);
        assert(final(s)@ =~= old(s)@ + amount(n as nat, u));
    } else {
        assert(old(s)@ + amount(n as nat, u) =~= old(s)@);
    }
}

/// Writes a number of seconds in hours, minutes and seconds.
pub fn human_duration(seconds: u64) -> (r: String)
    ensures
        r@ == duration_text(seconds as nat),
{
    let mut s = String::new();
    if seconds == 0 {
        push_char(&mut s, '0');
        push_char(&mut s, 's');
        assert(s@ =~= seq!['0', 's']);
        return s;
    }
    push_amount(&mut s, seconds / 3600, 'h');
    push_amount(&mut s, (seconds % 3600) / 60, 'm');
    push_amount(&mut s, seconds % 60, 's');
    assert(s@ =~= duration_text(seconds as nat));
    s
}

/// The decimal notation of an integer, with a minus sign when negative.
pub open spec fn signed_decimal(x: int) -> Seq<char> {
    if x < 0 {
        seq!['-'] + decimal((-x) as nat)
    } else {
        decimal(x as nat)
    }
}

/// How a session's state reads: the application id, followed by the
/// workspace when there is one, or `Idle`.
pub open spec fn state_text(st: StateModel) -> Seq<char> {
    match st {
        StateModel::Active { app_id, workspace } => match workspace {
            Some(w) => app_id + seq![',', ' '] + signed_decimal(w as int),
            None => app_id,
        },
        StateModel::Idle => seq!['I', 'd', 'l', 'e'],
    }
}

/// The line of a session in the session list: its start time of day, its
/// duration and its state.
pub open spec fn session_line_text(clock: Seq<char>, s: SessionModel) -> Seq<char> {
    seq!['@', '-', '-', '-', ' ', '('] + clock + seq![')', ' '] + duration_text(
        (s.end - s.start) as nat,
    ) + seq![':', ' '] + state_text(s.state)
}

/// Writes how a session's state reads.
pub fn state_label(state: &State) -> (r: String)
    ensures
        r@ == state_text(state@),
{
    match state {
        State::Active { app_id, workspace } => {
            let mut r = app_id.clone();
            match workspace {
                Some(w) => {
                    push_char(&mut r, ',');
                    push_char(&mut r, ' ');
                    let v = *w as i64;
                    if v < 0 {
                        push_char(&mut r, '-');
                        push_decimal(&mut r, (-v) as u64);
                    } else {
                        push_decimal(&mut r, v as u64);
                    }
                    assert(r@ =~= state_text(state@));
                },
                None => {},
            }
            r
        },
        State::Idle => {
            let mut r = String::new();
            push_char(&mut r, 'I');
            push_char(&mut r, 'd');
            push_char(&mut r, 'l');
            push_char(&mut r, 'e');
            assert(r@ =~= seq!['I', 'd', 'l', 'e']);
            r
        },
    }
}

/// Writes the line of a session in the session list, `clock` being its
/// start time of day (a session must not end before it starts).
pub fn session_line(clock: &str, session: &Session) -> (r: String)
    requires
        session.start <= session.end,
    ensures
        r@ == session_line_text(clock@, session@),
{
    let mut r = String::new();
    push_char(&mut r, '@');
    push_char(&mut r, '-');
    push_char(&mut r, '-');
    push_char(&mut r, '-');
    push_char(&mut r, ' ');
    push_char(&mut r, '(');
    r.append(clock);
    push_char(&mut r, ')');
    push_char(&mut r, ' ');
    let d = ((session.end as i128) - (session.start as i128)) as u64;
    let dur = human_duration(d);
    r.append(dur.as_str());
    push_char(&mut r, ':');
    push_char(&mut r, ' ');
    let label = state_label(&session.state);
    r.append(label.as_str());
    assert(r@ =~= session_line_text(clock@, session@));
    r
}

/// The local calendar date (year and day of the year) of the UNIX timestamp
/// `ts` at the UTC offset of `offset` seconds, as `time` computes it; `None`
/// where `time` cannot represent it.
pub uninterp spec fn local_date(ts: i64, offset: i32) -> Option<(i32, u16)>;

/// The local date and time of the UNIX timestamp `ts` at the UTC offset of
/// `offset` seconds, written by `time` in the format description `format`;
/// `None` where `time` cannot represent it or write it so.
pub uninterp spec fn local_text(ts: i64, offset: i32, format: Seq<char>) -> Option<Seq<char>>;

/// The local date of a timestamp, with `time`: `UtcOffset::from_whole_seconds`,
/// `OffsetDateTime::from_unix_timestamp` and `checked_to_offset`, then
/// `year` and `ordinal`.
///
/// Trusted: the result is named `local_date` of the arguments.
#[verifier::external_body]
fn date_of(ts: i64, offset: i32) -> (r: Option<(i32, u16)>)
    ensures
        r == local_date(ts, offset),
{
    let offset = time::UtcOffset::from_whole_seconds(offset).ok()?;
    let local = time::OffsetDateTime::from_unix_timestamp(ts).ok()?.checked_to_offset(offset)?;
    Some((local.year(), local.ordinal()))
}

/// The local date and time of a timestamp written in a format description,
/// with `time`: `format_description::parse`, the local date and time as in
/// `date_of`, then `OffsetDateTime::format`.
///
/// Trusted: the result is named `local_text` of the arguments.
#[verifier::external_body]
fn time_text(ts: i64, offset: i32, format: &str) -> (r: Option<String>)
    ensures
        match r {
            Some(t) => local_text(ts, offset, format@) == Some(t@),
            None => local_text(ts, offset, format@) is None,
        },
{
    let description = time::format_description::parse(format).ok()?;
    let offset = time::UtcOffset::from_whole_seconds(offset).ok()?;
    let local = time::OffsetDateTime::from_unix_timestamp(ts).ok()?.checked_to_offset(offset)?;
    local.format(&description).ok()
}

/// Whether a session on local date `cur` opens a new day in the session
/// list: it is the first one, or the one before it was on another day.
pub fn needs_heading(prev: Option<(i32, u16)>, cur: (i32, u16)) -> (r: bool)
    ensures
        r == (prev is None || prev->0 != cur),
{
    match prev {
        None => true,
        Some(p) => p.0 != cur.0 || p.1 != cur.1,
    }
}

/// How a day's heading shows its date, such as `Mon, 05 January 2026`.
pub open spec fn heading_format() -> Seq<char> {
    "[weekday repr:short], [day] [month repr:long] [year]"@
}

/// How a session's start time of day shows, such as `09:30`.
pub open spec fn clock_format() -> Seq<char> {
    "[hour]:[minute]"@
}

/// The lines of one session in the session list: a separator, the day's
/// heading when the session opens a new day, and the session's line.
pub open spec fn listing_entry(s: SessionModel, heading: Option<Seq<char>>, clock: Seq<char>) -> Seq<
    char,
> {
    let head = match heading {
        Some(h) => seq!['#', ' ', ' ', ' ', ' '] + h + seq!['\n', '|', '\n', '|', '\n'],
        None => Seq::empty(),
    };
    seq!['|', '\n', '|', '\n'] + head + session_line_text(clock, s) + seq!['\n']
}

/// The session list of `s` at UTC offset `offset`, `prev` being the local
/// date of the session listed before them; `None` where a date or a time
/// cannot be shown.
pub open spec fn listing_from(s: Seq<SessionModel>, prev: Option<(i32, u16)>, offset: i32) -> Option<
    Seq<char>,
>
    decreases s.len(),
{
    if s.len() == 0 {
        Some(Seq::empty())
    } else {
        let x = s[0];
        match local_date(x.start, offset) {
            None => None,
            Some(d) => {
                let new_day = prev is None || prev->0 != d;
                let heading = local_text(x.start, offset, heading_format());
                let clock = local_text(x.start, offset, clock_format());
                if (new_day && heading is None) || clock is None {
                    None
                } else {
                    match listing_from(s.drop_first(), Some(d), offset) {
                        None => None,
                        Some(rest) => Some(
                            listing_entry(
                                x,
                                if new_day {
                                    heading
                                } else {
                                    None
                                },
                                clock->0,
                            ) + rest,
                        ),
                    }
                }
            },
        }
    }
}

/// `text` put before a list that may be missing.
pub open spec fn after(text: Seq<char>, rest: Option<Seq<char>>) -> Option<Seq<char>> {
    match rest {
        Some(r) => Some(text + r),
        None => None,
    }
}

/// The session list: for each session a separator, a heading with the date
/// whenever the local day changes, and the session's line, the local time
/// being UTC shifted by `offset` seconds; `None` where a date or a time
/// cannot be shown.
pub fn session_listing(sessions: &Vec<Session>, offset: i32) -> (r: Option<String>)
    requires
        forall|i: int| 0 <= i < sessions.len() ==> sessions[i].start <= sessions[i].end,
    ensures
        match r {
            Some(t) => listing_from(sessions_view(sessions@), None, offset) == Some(t@),
            None => listing_from(sessions_view(sessions@), None, offset) is None,
        },
{
    let ghost sv = sessions_view(sessions@);
    let mut out = String::new();
    let mut prev: Option<(i32, u16)> = None;
    let mut i: usize = 0;
    assert(sv.skip(0) =~= sv);
    assert(out@ + Seq::<char>::empty() =~= out@);
    while i < sessions.len()
        invariant
            sv == sessions_view(sessions@),
            i <= sessions.len(),
            forall|k: int| 0 <= k < sessions.len() ==> sessions[k].start <= sessions[k].end,
            listing_from(sv, None, offset) == after(out@, listing_from(sv.skip(i as int), prev, offset)),
        decreases sessions.len() - i,
    {
        let ghost rest = sv.skip(i as int);
        assert(rest[0] == sessions@[i as int]@);
        assert(rest.drop_first() =~= sv.skip(i + 1));
        let session = &sessions[i];
        let d = match date_of(session.start, offset) {
            Some(d) => d,
            None => {
                return None;
            },
        };
        let new_day = needs_heading(prev, d);
        let mut entry = String::new();
        push_char(&mut entry, '|');
        push_char(&mut entry, '\n');
        push_char(&mut entry, '|');
        push_char(&mut entry, '\n');
        let ghost mut heading: Option<Seq<char>> = None;
        if new_day {
            match time_text(session.start, offset, "[weekday repr:short], [day] [month repr:long] [year]") {
                Some(h) => {
                    push_char(&mut entry, '#');
                    push_char(&mut entry, ' ');
                    push_char(&mut entry, ' ');
                    push_char(&mut entry, ' ');
                    push_char(&mut entry, ' ');
                    entry.append(h.as_str());
                    push_char(&mut entry, '\n');
                    push_char(&mut entry, '|');
                    push_char(&mut entry, '\n');
                    push_char(&mut entry, '|');
                    push_char(&mut entry, '\n');
                    proof {
                        heading = Some(h@);
                    }
                },
                None => {
                    return None;
                },
            }
        }
        let clock = match time_text(session.start, offset, "[hour]:[minute]") {
            Some(c) => c,
            None => {
                return None;
            },
        };
        let line = session_line(clock.as_str(), session);
        entry.append(line.as_str());
        push_char(&mut entry, '\n');
        assert(entry@ =~= listing_entry(sv[i as int], heading, clock@));
        let ghost before = out@;
        out.append(entry.as_str());
        proof {
            match listing_from(sv.skip(i + 1), Some(d), offset) {
                Some(r2) => {
                    assert(before + (entry@ + r2) =~= out@ + r2);
                },
                None => {},
            }
        }
        prev = Some(d);
        i = i + 1;
    }
    assert(sv.skip(i as int) =~= Seq::<SessionModel>::empty());
    assert(out@ + Seq::<char>::empty() =~= out@);
    Some(out)
}

/// Whether `a` comes before `b` in lexicographic order from position `i` on
/// (characters compared by their code points; a proper prefix comes first).
pub open spec fn lex_lt_from(a: Seq<char>, b: Seq<char>, i: int) -> bool
    decreases a.len() - i,
{
    if i >= a.len() {
        i < b.len()
    } else if i >= b.len() {
        false
    } else if a[i] != b[i] {
        (a[i] as u32) < (b[i] as u32)
    } else {
        lex_lt_from(a, b, i + 1)
    }
}

/// Whether `a` comes strictly before `b` in lexicographic order.
pub open spec fn lex_lt(a: Seq<char>, b: Seq<char>) -> bool {
    lex_lt_from(a, b, 0)
}

/// From position `i` on, `a` comes before `b` when at the first position
/// where they differ `a` has the smaller character, or `a` ends first.
pub open spec fn differs_first_smaller(a: Seq<char>, b: Seq<char>, i: int) -> bool {
    exists|k: int|
        i <= k < a.len() && k < b.len() && (forall|j: int| i <= j < k ==> a[j] == b[j]) && #[trigger] a[k]
            != b[k] && (a[k] as u32) < (b[k] as u32)
}

/// From position `i` on, `a` runs out while agreeing with a longer `b`.
pub open spec fn proper_prefix_from(a: Seq<char>, b: Seq<char>, i: int) -> bool {
    a.len() < b.len() && forall|j: int| i <= j < a.len() ==> a[j] == b[j]
}

proof fn lemma_lex_from(a: Seq<char>, b: Seq<char>, i: int)
    requires
        0 <= i <= a.len(),
        i <= b.len(),
    ensures
        lex_lt_from(a, b, i) <==> differs_first_smaller(a, b, i) || proper_prefix_from(a, b, i),
    decreases a.len() - i,
{
    if i >= a.len() {
        assert(!differs_first_smaller(a, b, i));
    } else if i >= b.len() {
        assert(!differs_first_smaller(a, b, i));
    } else if a[i] != b[i] {
        if differs_first_smaller(a, b, i) {
            let k = choose|k: int|
                i <= k < a.len() && k < b.len() && (forall|j: int| i <= j < k ==> a[j] == b[j])
                    && #[trigger] a[k] != b[k] && (a[k] as u32) < (b[k] as u32);
            if k > i {
                assert(a[i] == b[i]);
            }
        }
        if (a[i] as u32) < (b[i] as u32) {
            assert(a[i] != b[i]);
        }
    } else {
        lemma_lex_from(a, b, i + 1);
        if differs_first_smaller(a, b, i) {
            let k = choose|k: int|
                i <= k < a.len() && k < b.len() && (forall|j: int| i <= j < k ==> a[j] == b[j])
                    && #[trigger] a[k] != b[k] && (a[k] as u32) < (b[k] as u32);
            assert(k != i);
            assert(a[k] != b[k]);
        }
        if differs_first_smaller(a, b, i + 1) {
            let k = choose|k: int|
                i + 1 <= k < a.len() && k < b.len() && (forall|j: int| i + 1 <= j < k ==> a[j] == b[j])
                    && #[trigger] a[k] != b[k] && (a[k] as u32) < (b[k] as u32);
            assert(forall|j: int| i <= j < k ==> a[j] == b[j]);
            assert(a[k] != b[k]);
        }
    }
}

/// `lex_lt` is the usual order of strings: `a` comes before `b` exactly
/// when, at the first position where they differ, `a` has the smaller
/// character (at any position), or when `a` is a proper prefix of `b`.
pub proof fn lex_lt_is_string_order(a: Seq<char>, b: Seq<char>)
    ensures
        lex_lt(a, b) <==> (exists|k: int|
            0 <= k < a.len() && k < b.len() && (forall|j: int| 0 <= j < k ==> a[j] == b[j])
                && #[trigger] a[k] != b[k] && (a[k] as u32) < (b[k] as u32)) || (a.len() < b.len()
            && a == b.take(a.len() as int)),
{
    lemma_lex_from(a, b, 0);
    if a.len() < b.len() && a == b.take(a.len() as int) {
        assert forall|j: int| 0 <= j < a.len() implies a[j] == b[j] by {
            assert(a[j] == b.take(a.len() as int)[j]);
        }
    }
    if proper_prefix_from(a, b, 0) {
        assert(a =~= b.take(a.len() as int));
    }
}

proof fn lemma_lex_transitive(a: Seq<char>, b: Seq<char>, c: Seq<char>, i: int)
    requires
        0 <= i,
        lex_lt_from(a, b, i),
        lex_lt_from(b, c, i),
    ensures
        lex_lt_from(a, c, i),
    decreases a.len() - i,
{
    if i < a.len() && i < b.len() && i < c.len() && a[i] == b[i] && b[i] == c[i] {
        lemma_lex_transitive(a, b, c, i + 1);
    }
}

proof fn lemma_lex_asymmetric(a: Seq<char>, b: Seq<char>, i: int)
    requires
        0 <= i,
        lex_lt_from(a, b, i),
    ensures
        !lex_lt_from(b, a, i),
    decreases a.len() - i,
{
    if i < a.len() && i < b.len() && a[i] == b[i] {
        lemma_lex_asymmetric(a, b, i + 1);
    }
}

/// Whether the string `a` comes strictly before the string `b`.
fn str_lt(a: &String, b: &String) -> (r: bool)
    ensures
        r == lex_lt(a@, b@),
{
    let n = a.as_str().unicode_len();
    let m = b.as_str().unicode_len();
    let mut i: usize = 0;
    while i < n && i < m
        invariant
            n == a@.len(),
            m == b@.len(),
            i <= n,
            i <= m,
            lex_lt_from(a@, b@, 0) == lex_lt_from(a@, b@, i as int),
        decreases n - i,
    {
        let x = a.as_str().get_char(i);
        let y = b.as_str().get_char(i);
        if x != y {
            return (x as u32) < (y as u32);
        }
        i = i + 1;
    }
    i >= n && i < m
}

/// A (name, time) entry, as a mathematical value.
pub open spec fn entry_view(e: (String, i64)) -> (Seq<char>, i64) {
    (e.0@, e.1)
}

/// The views of a sequence of entries.
pub open spec fn entries_view(e: Seq<(String, i64)>) -> Seq<(Seq<char>, i64)> {
    e.map_values(|x: (String, i64)| entry_view(x))
}

/// Whether entry `a` must come before entry `b`: by time or by name, in
/// ascending or descending order.
pub open spec fn goes_before(a: (Seq<char>, i64), b: (Seq<char>, i64), ascending: bool, by_time: bool) -> bool {
    let (x, y) = if ascending {
        (a, b)
    } else {
        (b, a)
    };
    if by_time {
        x.1 < y.1
    } else {
        lex_lt(x.0, y.0)
    }
}

/// Whether no entry must come before one that precedes it.
pub open spec fn is_ordered(s: Seq<(Seq<char>, i64)>, ascending: bool, by_time: bool) -> bool {
    forall|i: int, j: int|
        0 <= i < j < s.len() ==> !goes_before(#[trigger] s[j], #[trigger] s[i], ascending, by_time)
}

proof fn lemma_goes_before_order(
    a: (Seq<char>, i64),
    b: (Seq<char>, i64),
    c: (Seq<char>, i64),
    ascending: bool,
    by_time: bool,
)
    ensures
        goes_before(a, b, ascending, by_time) && goes_before(b, c, ascending, by_time) ==> goes_before(
            a,
            c,
            ascending,
            by_time,
        ),
        goes_before(a, b, ascending, by_time) ==> !goes_before(b, a, ascending, by_time),
{
    if !by_time {
        if ascending {
            if lex_lt(a.0, b.0) && lex_lt(b.0, c.0) {
                lemma_lex_transitive(a.0, b.0, c.0, 0);
            }
            if lex_lt(a.0, b.0) {
                lemma_lex_asymmetric(a.0, b.0, 0);
            }
        } else {
            if lex_lt(b.0, a.0) && lex_lt(c.0, b.0) {
                lemma_lex_transitive(c.0, b.0, a.0, 0);
            }
            if lex_lt(b.0, a.0) {
                lemma_lex_asymmetric(b.0, a.0, 0);
            }
        }
    }
}

fn entry_goes_before(a: &(String, i64), b: &(String, i64), ascending: bool, by_time: bool) -> (r: bool)
    ensures
        r == goes_before(entry_view(*a), entry_view(*b), ascending, by_time),
{
    let (x, y) = if ascending {
        (a, b)
    } else {
        (b, a)
    };
    if by_time {
        x.1 < y.1
    } else {
        str_lt(&x.0, &y.0)
    }
}

/// The first position in `r` whose entry `x` must come before, or the end.
fn insert_position(r: &Vec<(String, i64)>, x: &(String, i64), ascending: bool, by_time: bool) -> (p:
    usize)
    ensures
        p <= r@.len(),
        forall|q: int|
            0 <= q < p ==> !goes_before(entry_view(*x), #[trigger] entries_view(r@)[q], ascending, by_time),
        p < r@.len() ==> goes_before(entry_view(*x), entries_view(r@)[p as int], ascending, by_time),
{
    let mut p: usize = 0;
    while p < r.len()
        invariant
            p <= r@.len(),
            forall|q: int|
                0 <= q < p ==> !goes_before(entry_view(*x), #[trigger] entries_view(r@)[q], ascending, by_time),
        decreases r@.len() - p,
    {
        if entry_goes_before(x, &r[p], ascending, by_time) {
            return p;
        }
        p = p + 1;
    }
    p
}

/// Orders (name, time) entries by time or by name, ascending or descending:
/// the result holds the same entries, and none must come before one that
/// precedes it.
pub fn rank_entries(entries: Vec<(String, i64)>, ascending: bool, by_time: bool) -> (r: Vec<
    (String, i64),
>)
    ensures
        entries_view(r@).to_multiset() == entries_view(entries@).to_multiset(),
        is_ordered(entries_view(r@), ascending, by_time),
{
    broadcast use vstd::seq_lib::to_multiset_insert, vstd::seq_lib::group_to_multiset_ensures, vstd::multiset::group_multiset_axioms, vstd::multiset::group_multiset_properties;

    let ghost all = entries_view(entries@);
    let mut r: Vec<(String, i64)> = Vec::new();
    assert(entries_view(r@) =~= Seq::empty());
    assert(Seq::<(Seq<char>, i64)>::empty().to_multiset() =~= vstd::multiset::Multiset::empty()) by {
        Seq::<(Seq<char>, i64)>::empty().to_multiset_ensures();
    }
    assert(all.take(0) =~= Seq::empty());
    let mut i: usize = 0;
    while i < entries.len()
        invariant
            all == entries_view(entries@),
            i <= entries@.len(),
            entries_view(r@).to_multiset() == all.take(i as int).to_multiset(),
            is_ordered(entries_view(r@), ascending, by_time),
        decreases entries@.len() - i,
    {
        let x = (entries[i].0.clone(), entries[i].1);
        let ghost xv = entry_view(x);
        assert(xv == all[i as int]);
        assert(all.take(i + 1) =~= all.take(i as int).push(xv));
        let p = insert_position(&r, &x, ascending, by_time);
        let ghost old_r = entries_view(r@);
        r.insert(p, x);
        assert(entries_view(r@) =~= old_r.insert(p as int, xv));
        proof {
            vstd::seq_lib::to_multiset_insert(old_r, p as int, xv);
            vstd::seq_lib::to_multiset_build(all.take(i as int), xv);
        }
        assert forall|a: int, b: int| 0 <= a < b < entries_view(r@).len() implies !goes_before(
            #[trigger] entries_view(r@)[b],
            #[trigger] entries_view(r@)[a],
            ascending,
            by_time,
        ) by {
            let nr = entries_view(r@);
            if b < p {
                assert(nr[a] == old_r[a] && nr[b] == old_r[b]);
            } else if b == p {
                assert(nr[b] == xv && nr[a] == old_r[a]);
            } else if a == p {
                assert(nr[a] == xv && nr[b] == old_r[b - 1]);
                lemma_goes_before_order(old_r[b - 1], xv, old_r[p as int], ascending, by_time);
                if p < b - 1 {
                    lemma_goes_before_order(old_r[b - 1], old_r[p as int], xv, ascending, by_time);
                }
            } else if a < p {
                assert(nr[a] == old_r[a] && nr[b] == old_r[b - 1]);
            } else {
                assert(nr[a] == old_r[a - 1] && nr[b] == old_r[b - 1]);
            }
        }
        i = i + 1;
    }
    assert(all.take(entries@.len() as int) =~= all);
    r
}

} // verus!
