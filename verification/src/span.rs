//! Source positions of tokens and the adjacency test built on them.

use crate::text::chars_of;
use vstd::prelude::*;

verus! {

/// The byte offsets at which a piece of template source starts and ends.
#[derive(Clone, Copy, Debug, PartialEq, Eq, Structural)]
pub struct SpanPos {
    pub start: usize,
    pub end: usize,
}

impl Default for SpanPos {
    /// The empty span at the start of the source.
    fn default() -> (s: SpanPos)
        ensures
            s == (SpanPos { start: 0, end: 0 }),
    {
        SpanPos { start: 0, end: 0 }
    }
}

/// Whether source whitespace stood between a fragment that ends at
/// `prev_end` and one that starts at `next_start`.
pub open spec fn spec_gap(prev_end: int, next_start: int) -> bool {
    prev_end != next_start
}

/// Tells whether two neighbouring fragments were separated in the source.
pub fn gap(prev_end: usize, next_start: usize) -> (separated: bool)
    ensures
        separated == spec_gap(prev_end as int, next_start as int),
{
    prev_end != next_start
}

/// The value of a decimal digit.
pub open spec fn digit_value(c: char) -> Option<nat> {
    if '0' <= c <= '9' {
        Some((c as u32 - '0' as u32) as nat)
    } else {
        None
    }
}

/// The number that a run of decimal digits writes; a run that is empty or
/// holds anything else writes none.
pub open spec fn decimal(s: Seq<char>) -> Option<nat>
    decreases s.len(),
{
    if s.len() == 0 {
        None
    } else if s.len() == 1 {
        digit_value(s[0])
    } else {
        match (decimal(s.drop_last()), digit_value(s.last())) {
            (Some(high), Some(low)) => Some(high * 10 + low),
            _ => None,
        }
    }
}

/// The number that `s` writes: decimal digits, with `+` allowed before them.
pub open spec fn number(s: Seq<char>) -> Option<nat> {
    if s.len() > 0 && s[0] == '+' {
        decimal(s.drop_first())
    } else {
        decimal(s)
    }
}

/// The index of the first `c` in `s` at or after `from`, or the length of
/// `s` when there is none.
pub open spec fn first_index(s: Seq<char>, c: char, from: int) -> int
    decreases s.len() - from,
{
    if from < 0 || from >= s.len() {
        s.len() as int
    } else if s[from] == c {
        from
    } else {
        first_index(s, c, from + 1)
    }
}

/// The span that the text `d` describes, if it describes one.
///
/// The text is read as `…(start..end)`: the start is the number between the
/// first `(` and the first `.`, the end the number that follows two
/// characters later and runs up to the last character, which is left out.
/// Both must fit the machine's word.
pub open spec fn span_of_debug(d: Seq<char>) -> Option<SpanPos> {
    let open = first_index(d, '(', 0);
    let dot = first_index(d, '.', 0);
    if open < dot < d.len() && dot + 2 <= d.len() - 1 {
        match (number(d.subrange(open + 1, dot)), number(d.subrange(dot + 2, d.len() - 1))) {
            (Some(start), Some(end)) => if start <= usize::MAX && end <= usize::MAX {
                Some(SpanPos { start: start as usize, end: end as usize })
            } else {
                None
            },
            _ => None,
        }
    } else {
        None
    }
}

/// A run of digits writes at least what any shorter start of it writes.
pub proof fn lemma_decimal_grows(s: Seq<char>, k: int)
    requires
        1 <= k <= s.len(),
        decimal(s) is Some,
    ensures
        decimal(s.take(k)) is Some,
        decimal(s.take(k))->Some_0 <= decimal(s)->Some_0,
    decreases s.len(),
{
    if k == s.len() {
        assert(s.take(k) =~= s);
    } else {
        lemma_decimal_grows(s.drop_last(), k);
        assert(s.drop_last().take(k) =~= s.take(k));
    }
}

fn find(s: &Vec<char>, c: char) -> (i: usize)
    ensures
        i == first_index(s@, c, 0),
        i <= s.len(),
{
    let mut i: usize = 0;
    while i < s.len() && s[i] != c
        invariant
            0 <= i <= s.len(),
            first_index(s@, c, 0) == first_index(s@, c, i as int),
        decreases s.len() - i,
    {
        i += 1;
    }
    i
}

fn digit(c: char) -> (d: Option<usize>)
    ensures
        match d {
            Some(v) => digit_value(c) == Some(v as nat) && v <= 9,
            None => digit_value(c) is None,
        },
{
    let u: u32 = c as u32;
    if 0x30 <= u && u <= 0x39 {
        Some((u - 0x30) as usize)
    } else {
        None
    }
}

fn parse_decimal(s: &Vec<char>, from: usize, to: usize) -> (r: Option<usize>)
    requires
        from <= to <= s.len(),
    ensures
        match r {
            Some(v) => decimal(s@.subrange(from as int, to as int)) == Some(v as nat),
            None => match decimal(s@.subrange(from as int, to as int)) {
                Some(n) => n > usize::MAX,
                None => true,
            },
        },
{
    let ghost run = s@.subrange(from as int, to as int);
    if from == to {
        return None;
    }
    let mut acc: usize = match digit(s[from]) {
        Some(v) => v,
        None => {
            proof {
                if decimal(run) is Some {
                    lemma_decimal_grows(run, 1);
                    assert(run.take(1)[0] == s@[from as int]);
                }
            }
            return None;
        },
    };
    let mut i: usize = from + 1;
    proof {
        assert(run.take(1)[0] == s@[from as int]);
    }
    while i < to
        invariant
            run == s@.subrange(from as int, to as int),
            from < i <= to <= s.len(),
            decimal(run.take(i - from)) == Some(acc as nat),
        decreases to - i,
    {
        let ghost next = run.take(i - from + 1);
        proof {
            assert(next.drop_last() =~= run.take(i - from));
            assert(next.last() == s@[i as int]);
        }
        let d = match digit(s[i]) {
            Some(v) => v,
            None => {
                proof {
                    if decimal(run) is Some {
                        lemma_decimal_grows(run, i - from + 1);
                    }
                }
                return None;
            },
        };
        if acc > usize::MAX / 10 || acc * 10 > usize::MAX - d {
            proof {
                if decimal(run) is Some {
                    lemma_decimal_grows(run, i - from + 1);
                }
            }
            return None;
        }
        acc = acc * 10 + d;
        i += 1;
    }
    proof {
        assert(run.take(to - from) =~= run);
    }
    Some(acc)
}

fn parse_number(s: &Vec<char>, from: usize, to: usize) -> (r: Option<usize>)
    requires
        from <= to <= s.len(),
    ensures
        match r {
            Some(v) => number(s@.subrange(from as int, to as int)) == Some(v as nat),
            None => match number(s@.subrange(from as int, to as int)) {
                Some(n) => n > usize::MAX,
                None => true,
            },
        },
{
    let ghost run = s@.subrange(from as int, to as int);
    if from < to && s[from] == '+' {
        proof {
            assert(run[0] == s@[from as int]);
            assert(run.drop_first() =~= s@.subrange(from as int + 1, to as int));
        }
        parse_decimal(s, from + 1, to)
    } else {
        proof {
            if from < to {
                assert(run[0] == s@[from as int]);
            }
        }
        parse_decimal(s, from, to)
    }
}

impl SpanPos {
    /// Whether this span ends at or after its start, as every span of a piece
    /// of source does.
    pub open spec fn valid(self) -> bool {
        self.start <= self.end
    }

    /// Stretches this span so that it ends where `end` ends; the start stays.
    pub fn move_end(&mut self, end: SpanPos)
        ensures
            final(self).start == old(self).start,
            final(self).end == end.end,
    {
        self.end = end.end;
    }

    /// Reads a span from the text that describes it, such as
    /// `#0 bytes(12..15)`. Returns `None` for a text that describes none.
    pub fn from_debug(text: &str) -> (r: Option<SpanPos>)
        ensures
            r == span_of_debug(text@),
    {
        let d = chars_of(text);
        let open = find(&d, '(');
        let dot = find(&d, '.');
        if !(open < dot && dot < d.len()) {
            return None;
        }
        if d.len() - dot < 3 {
            return None;
        }
        let start = match parse_number(&d, open + 1, dot) {
            Some(v) => v,
            None => {
                return None;
            },
        };
        match parse_number(&d, dot + 2, d.len() - 1) {
            Some(end) => Some(SpanPos { start, end }),
            None => None,
        }
    }
}

} // verus!
