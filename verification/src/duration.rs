//! Durations written as text.

use vstd::prelude::*;
use vstd::string::*;

verus! {

/// A span of time, in whole milliseconds.
#[derive(Debug, Clone, Copy, PartialEq, Eq, Structural)]
pub struct Span {
    pub secs: u64,
    pub millis: u64,
}

impl Span {
    pub open spec fn total_millis(self) -> int {
        self.secs * 1000 + self.millis
    }

    pub open spec fn wf(self) -> bool {
        self.millis < 1000
    }
}

pub open spec fn is_digit(c: char) -> bool {
    '0' <= c <= '9'
}

pub open spec fn all_digits(s: Seq<char>) -> bool {
    forall|i: int| 0 <= i < s.len() ==> is_digit(#[trigger] s[i])
}

/// The number that decimal digits spell.
pub open spec fn value_of(s: Seq<char>) -> int
    decreases s.len(),
{
    if s.len() == 0 {
        0
    } else {
        10 * value_of(s.drop_last()) + (s.last() as int - '0' as int)
    }
}

/// The digits of a number after a plus sign, if there is one.
pub open spec fn unsigned_part(s: Seq<char>) -> Seq<char> {
    if s.len() > 0 && s[0] == '+' {
        s.skip(1)
    } else {
        s
    }
}

/// The whole number that a text spells, if it spells one that fits the machine.
pub open spec fn whole_number(s: Seq<char>) -> Option<u64> {
    let digits = unsigned_part(s);
    if digits.len() > 0 && all_digits(digits) && value_of(digits) <= u64::MAX {
        Some(value_of(digits) as u64)
    } else {
        None
    }
}

/// Longer runs of digits spell greater numbers.
proof fn lemma_value_grows(s: Seq<char>, n: int)
    requires
        all_digits(s),
        0 <= n <= s.len(),
    ensures
        0 <= value_of(s.take(n)) <= value_of(s),
    decreases s.len(),
{
    if n == s.len() {
        assert(s.take(n) =~= s);
        if n > 0 {
            let less = s.drop_last();
            assert(all_digits(less)) by {
                assert forall|i: int| 0 <= i < less.len() implies is_digit(#[trigger] less[i]) by {
                    assert(is_digit(s[i]));
                }
            }
            lemma_value_grows(less, n - 1);
            assert(less.take(n - 1) =~= less);
            assert(is_digit(s[n - 1]));
        }
    } else {
        let less = s.drop_last();
        assert(all_digits(less)) by {
            assert forall|i: int| 0 <= i < less.len() implies is_digit(#[trigger] less[i]) by {
                assert(is_digit(s[i]));
            }
        }
        lemma_value_grows(less, n);
        assert(less.take(n) =~= s.take(n));
        assert(is_digit(s[s.len() - 1]));
    }
}

/// Reads a whole number.
pub fn parse_whole(s: &str) -> (r: Option<u64>)
    ensures
        r == whole_number(s@),
{
    let n = s.unicode_len();
    let ghost digits = unsigned_part(s@);
    let start: usize = if n > 0 && s.get_char(0) == '+' { 1 } else { 0 };
    if start == n {
        return None;
    }
    let mut value: u64 = 0;
    let mut i: usize = start;
    assert(digits.take(0) =~= Seq::empty());
    while i < n
        invariant
            start <= i <= n == s@.len(),
            start < n,
            digits == unsigned_part(s@),
            digits == s@.skip(start as int),
            digits.len() == n - start,
            forall|k: int| 0 <= k < i - start ==> is_digit(#[trigger] digits[k]),
            value == value_of(digits.take(i - start)),
        decreases n - i,
    {
        let c = s.get_char(i);
        assert(c == digits[i - start]);
        if c < '0' || c > '9' {
            assert(!is_digit(digits[i - start]));
            return None;
        }
        let digit: u64 = c as u64 - '0' as u64;
        proof {
            let more = digits.take(i - start + 1);
            assert(more.drop_last() =~= digits.take(i - start));
            assert(value_of(more) == 10 * value + digit);
            if 10 * value + digit > u64::MAX && all_digits(digits) {
                lemma_value_grows(digits, i - start + 1);
            }
        }
        value = match value.checked_mul(10) {
            None => {
                return None;
            },
            Some(tens) => match tens.checked_add(digit) {
                None => {
                    return None;
                },
                Some(v) => v,
            },
        };
        i = i + 1;
    }
    assert(digits.take(n - start) =~= digits);
    Some(value)
}

/// `s` ends in `end`.
pub open spec fn ends_in(s: Seq<char>, end: Seq<char>) -> bool {
    s.len() >= end.len() && s.skip(s.len() - end.len()) == end
}

/// The text without its last `n` letters.
pub open spec fn without(s: Seq<char>, n: int) -> Seq<char> {
    s.take(s.len() - n)
}

/// A span of whole milliseconds.
fn span_of_millis(ms: u64) -> (r: Span)
    ensures
        r.wf(),
        r.total_millis() == ms,
{
    Span { secs: ms / 1000, millis: ms % 1000 }
}

/// Reads a duration such as `2500ms`, `5s` or `1m`: a whole number of
/// milliseconds or minutes, or a number of seconds, of which `seconds` says how
/// many whole milliseconds it is.
pub fn parse_duration<F: Fn(&str) -> Option<u64>>(s: &str, seconds: &F) -> (r: Option<Span>)
    requires
        forall|text: &str| #[trigger] seconds.requires((text,)),
        !ends_in(s@, seq!['m', 's']) && ends_in(s@, seq!['m']) ==> (whole_number(without(s@, 1)) matches Some(v) ==> v * 60
            <= u64::MAX),
    ensures
        r matches Some(span) ==> span.wf(),
        if ends_in(s@, seq!['m', 's']) {
            match whole_number(without(s@, 2)) {
                Some(ms) => r is Some && r->Some_0.total_millis() == ms,
                None => r is None,
            }
        } else if ends_in(s@, seq!['s']) {
            exists|text: &str, ms: Option<u64>|
                text@ == without(s@, 1) && #[trigger] seconds.ensures((text,), ms) && match ms {
                    Some(ms) => r is Some && r->Some_0.total_millis() == ms,
                    None => r is None,
                }
        } else if ends_in(s@, seq!['m']) {
            match whole_number(without(s@, 1)) {
                Some(v) => r is Some && r->Some_0.total_millis() == v * 60 * 1000,
                None => r is None,
            }
        } else {
            r is None
        },
{
    let n = s.unicode_len();
    if n == 0 {
        return None;
    }
    let last = s.get_char(n - 1);
    proof {
        lemma_ends(s@);
    }
    let head = s.substring_char(0, n - 1);
    assert(head@ =~= without(s@, 1));
    if n > 1 && last == 's' && s.get_char(n - 2) == 'm' {
        let head = s.substring_char(0, n - 2);
        assert(head@ =~= without(s@, 2));
        return match parse_whole(head) {
            Some(ms) => Some(span_of_millis(ms)),
            None => None,
        };
    }
    if last == 's' {
        let ms = seconds(head);
        assert(seconds.ensures((head,), ms));
        return match ms {
            Some(ms) => Some(span_of_millis(ms)),
            None => None,
        };
    }
    if last == 'm' {
        return match parse_whole(head) {
            Some(v) => Some(Span { secs: v * 60, millis: 0 }),
            None => None,
        };
    }
    None
}

/// How long frames are drawn alongside, in milliseconds, if a run takes
/// `millis`: a quarter of that, and half a second at least.
pub fn render_window(millis: u64) -> (r: u64)
    ensures
        r == (if millis / 4 < 500 {
            500
        } else {
            millis / 4
        }),
{
    if millis / 4 < 500 {
        500
    } else {
        millis / 4
    }
}

/// How a text ends, by its last letters.
proof fn lemma_ends(s: Seq<char>)
    requires
        s.len() > 0,
    ensures
        ends_in(s, seq!['s']) == (s.last() == 's'),
        ends_in(s, seq!['m']) == (s.last() == 'm'),
        ends_in(s, seq!['m', 's']) == (s.len() > 1 && s.last() == 's' && s[s.len() - 2] == 'm'),
{
    let (one, two) = (s.skip(s.len() - 1), s.skip(s.len() - 2));
    if s.last() == 's' {
        assert(one =~= seq!['s']);
    }
    if s.last() == 'm' {
        assert(one =~= seq!['m']);
    }
    if s.len() > 1 && s.last() == 's' && s[s.len() - 2] == 'm' {
        assert(two =~= seq!['m', 's']);
    }
    if one == seq!['s'] {
        assert(one[0] == 's');
    }
    if one == seq!['m'] {
        assert(one[0] == 'm');
    }
    if s.len() > 1 && two == seq!['m', 's'] {
        assert(two[0] == 'm' && two[1] == 's');
    }
}

/// A digit more makes a number ten times as great, and as much greater as the digit
/// says; a digit alone is its own number.
pub proof fn law_digits_count_tenfold(s: &str, t: &str, c: char, digit: u64, before: Option<u64>, after: Option<u64>)
    requires
        call_ensures(parse_whole, (s,), before),
        call_ensures(parse_whole, (t,), after),
        t@ == s@.push(c),
        digit < 10,
        c as int == '0' as int + digit,
    ensures
        s@.len() == 0 ==> before is None && after == Some(digit),
        before matches Some(v) ==> if 10 * v + digit <= u64::MAX {
            after == Some((10 * v + digit) as u64)
        } else {
            after is None
        },
{
    let (a, b) = (unsigned_part(s@), unsigned_part(t@));
    if s@.len() == 0 {
        assert(b =~= seq![c]);
        assert(b.drop_last() =~= Seq::<char>::empty());
        assert(value_of(b.drop_last()) == 0);
    } else {
        assert(t@[0] == s@[0]);
        assert(b =~= a.push(c));
        assert(b.drop_last() =~= a);
        if before is Some {
            assert forall|i: int| 0 <= i < b.len() implies is_digit(#[trigger] b[i]) by {
                if i < a.len() {
                    assert(is_digit(a[i]));
                }
            }
            lemma_value_grows(a, a.len() as int);
            assert(a.take(a.len() as int) =~= a);
            assert(value_of(b) == 10 * value_of(a) + digit);
        }
    }
}

/// A text with anything in it that is no digit spells no number, but for a plus sign
/// in front.
pub proof fn law_only_digits_spell_numbers(s: &str, r: Option<u64>, i: int)
    requires
        call_ensures(parse_whole, (s,), r),
        0 <= i < s@.len(),
        s@[i] < '0' || s@[i] > '9',
        i > 0 || s@[i] != '+',
    ensures
        r is None,
{
    let digits = unsigned_part(s@);
    if s@[0] == '+' {
        assert(digits[i - 1] == s@[i]);
    } else {
        assert(digits[i] == s@[i]);
    }
    assert(!all_digits(digits)) by {
        let k = if s@[0] == '+' {
            i - 1
        } else {
            i
        };
        assert(!is_digit(digits[k]));
    }
}

/// A minute is sixty thousand milliseconds.
pub proof fn law_a_minute_is_sixty_thousand_milliseconds<F: Fn(&str) -> Option<u64>>(
    digits: Seq<char>,
    minutes: &str,
    millis: &str,
    seconds: F,
    m: Option<Span>,
    ms: Option<Span>,
)
    requires
        minutes@ == digits.push('m'),
        millis@ == digits.push('m').push('s'),
        call_ensures(parse_duration::<F>, (minutes, &seconds), m),
        call_ensures(parse_duration::<F>, (millis, &seconds), ms),
        ms matches Some(span) ==> 60 * span.total_millis() <= u64::MAX,
    ensures
        m is Some <==> ms is Some,
        m matches Some(long) ==> ms matches Some(short) && long.secs * 1000 + long.millis == 60_000 * (short.secs * 1000 + short.millis)
            && long.millis < 1000 && short.millis < 1000,
{
    lemma_ends(minutes@);
    lemma_ends(millis@);
    assert(without(minutes@, 1) =~= digits);
    assert(without(millis@, 2) =~= digits);
}

/// Frames are drawn for a quarter of a run, rounded down, but for half a second at
/// least.
pub proof fn law_frames_are_drawn_for_a_quarter(millis: u64, r: u64)
    requires
        call_ensures(render_window, (millis,), r),
    ensures
        r >= 500,
        4 * r > millis - 4,
        r > 500 ==> 4 * r <= millis,
{
}

} // verus!
