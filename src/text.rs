//! Character-level helpers: finding a separator, splitting text into
//! pieces and lines, and reading unsigned decimal numbers the way std's
//! `FromStr` for unsigned integers does.
use vstd::prelude::*;
use vstd::string::*;

verus! {

/// `i` is the position of the first `c` in `s`.
pub open spec fn is_first(s: Seq<char>, c: char, i: int) -> bool {
    &&& 0 <= i < s.len()
    &&& s[i] == c
    &&& forall|j: int| 0 <= j < i ==> s[j] != c
}

/// The position of the first `c` in `s`, if there is one.
pub open spec fn first_index(s: Seq<char>, c: char) -> Option<int> {
    if exists|i: int| is_first(s, c, i) {
        Some(choose|i: int| is_first(s, c, i))
    } else {
        None
    }
}

proof fn lemma_some_first(s: Seq<char>, c: char, j: int)
    requires
        0 <= j < s.len(),
        s[j] == c,
    ensures
        exists|i: int| is_first(s, c, i),
    decreases j,
{
    if exists|m: int| 0 <= m < j && s[m] == c {
        let m = choose|m: int| 0 <= m < j && s[m] == c;
        lemma_some_first(s, c, m);
    } else {
        assert(is_first(s, c, j));
    }
}

proof fn lemma_first_unique(s: Seq<char>, c: char, i: int, k: int)
    requires
        is_first(s, c, i),
        is_first(s, c, k),
    ensures
        i == k,
{
    if i < k {
        assert(s[i] != c);
    } else if k < i {
        assert(s[k] != c);
    }
}

/// What `first_index` says, in terms of the characters of `s`.
pub proof fn lemma_first_index(s: Seq<char>, c: char)
    ensures
        first_index(s, c) matches Some(i) ==> is_first(s, c, i),
        first_index(s, c) is None ==> forall|j: int| 0 <= j < s.len() ==> s[j] != c,
{
    if first_index(s, c) is None {
        assert forall|j: int| 0 <= j < s.len() implies s[j] != c by {
            if s[j] == c {
                lemma_some_first(s, c, j);
            }
        }
    }
}

/// The characters of `s`, one element each.
pub fn chars_of(s: &str) -> (r: Vec<char>)
    ensures
        r@ == s@,
{
    let n = s.unicode_len();
    let mut r: Vec<char> = Vec::new();
    let mut i: usize = 0;
    while i < n
        invariant
            n == s@.len(),
            i <= n,
            r@ == s@.subrange(0, i as int),
        decreases n - i,
    {
        r.push(s.get_char(i));
        i = i + 1;
        assert(r@ =~= s@.subrange(0, i as int));
    }
    assert(r@ =~= s@);
    r
}

/// Finds the first `c` among `cs[from..to]`, as a position in `cs`.
pub fn find_char(cs: &Vec<char>, from: usize, to: usize, c: char) -> (r: Option<usize>)
    requires
        from <= to <= cs@.len(),
    ensures
        match first_index(cs@.subrange(from as int, to as int), c) {
            Some(k) => r == Some((from + k) as usize),
            None => r is None,
        },
{
    let ghost s = cs@.subrange(from as int, to as int);
    let mut i: usize = from;
    while i < to
        invariant
            from <= i <= to <= cs@.len(),
            s == cs@.subrange(from as int, to as int),
            forall|j: int| from <= j < i ==> cs@[j] != c,
        decreases to - i,
    {
        if cs[i] == c {
            proof {
                assert(is_first(s, c, i - from));
                lemma_first_index(s, c);
                let k = first_index(s, c)->Some_0;
                lemma_first_unique(s, c, k, i - from);
            }
            return Some(i);
        }
        i = i + 1;
    }
    proof {
        lemma_first_index(s, c);
        if first_index(s, c) is Some {
            let k = first_index(s, c)->Some_0;
            assert(cs@[from + k] == c);
        }
    }
    None
}

/// `s` with one trailing carriage return taken off, if it has one.
pub open spec fn strip_cr(s: Seq<char>) -> Seq<char> {
    if s.len() > 0 && s.last() == '\r' {
        s.drop_last()
    } else {
        s
    }
}

/// The pieces of `s` between occurrences of `c`, as `str::split` gives
/// them: always at least one, possibly empty.
pub open spec fn pieces(s: Seq<char>, c: char) -> Seq<Seq<char>>
    decreases s.len(),
{
    match first_index(s, c) {
        Some(i) => if 0 <= i < s.len() {
            seq![s.subrange(0, i)] + pieces(s.subrange(i + 1, s.len() as int), c)
        } else {
            seq![s]
        },
        None => seq![s],
    }
}

/// The lines of `s`, as `str::lines` gives them: split at `\n`, a `\r`
/// before the `\n` removed, no line after a final `\n`.
pub open spec fn lines_of(s: Seq<char>) -> Seq<Seq<char>>
    decreases s.len(),
{
    if s.len() == 0 {
        seq![]
    } else {
        match first_index(s, '\n') {
            Some(i) => if 0 <= i < s.len() {
                seq![strip_cr(s.subrange(0, i))] + lines_of(s.subrange(i + 1, s.len() as int))
            } else {
                seq![s]
            },
            None => seq![s],
        }
    }
}

/// A half-open range of positions, `(start, end)`.
pub type Span = (usize, usize);

/// The text that each span covers in `s`.
pub open spec fn spans_text(s: Seq<char>, spans: Seq<Span>) -> Seq<Seq<char>> {
    Seq::new(spans.len(), |k: int| s.subrange(spans[k].0 as int, spans[k].1 as int))
}

pub open spec fn spans_within(spans: Seq<Span>, from: int, to: int) -> bool {
    forall|k: int| 0 <= k < spans.len() ==> from <= #[trigger] spans[k].0 <= spans[k].1 <= to
}

/// The spans of the pieces of `cs[from..to]` between occurrences of `c`.
pub fn split_spans(cs: &Vec<char>, from: usize, to: usize, c: char) -> (r: Vec<Span>)
    requires
        from <= to <= cs@.len(),
    ensures
        spans_within(r@, from as int, to as int),
        spans_text(cs@, r@) == pieces(cs@.subrange(from as int, to as int), c),
{
    let ghost whole = pieces(cs@.subrange(from as int, to as int), c);
    let mut r: Vec<Span> = Vec::new();
    let mut start: usize = from;
    loop
        invariant
            from <= start <= to <= cs@.len(),
            spans_within(r@, from as int, to as int),
            whole == pieces(cs@.subrange(from as int, to as int), c),
            spans_text(cs@, r@) + pieces(cs@.subrange(start as int, to as int), c) == whole,
        decreases to - start,
    {
        let ghost rest = cs@.subrange(start as int, to as int);
        proof {
            lemma_first_index(rest, c);
        }
        match find_char(cs, start, to, c) {
            None => {
                let ghost before = r@;
                r.push((start, to));
                assert(pieces(rest, c) == seq![rest]);
                assert(spans_text(cs@, r@) =~= spans_text(cs@, before) + seq![rest]);
                assert(spans_text(cs@, before) + seq![rest] == whole);
                return r;
            },
            Some(j) => {
                let ghost before = r@;
                r.push((start, j));
                proof {
                    assert(rest.subrange(0, j - start) =~= cs@.subrange(start as int, j as int));
                    assert(rest.subrange(j - start + 1, rest.len() as int) =~= cs@.subrange(j + 1, to as int));
                    assert(spans_text(cs@, r@) =~= spans_text(cs@, before) + seq![cs@.subrange(start as int, j as int)]);
                }
                start = j + 1;
            },
        }
    }
}

/// The spans of the lines of `cs[from..to]`.
pub fn line_spans(cs: &Vec<char>, from: usize, to: usize) -> (r: Vec<Span>)
    requires
        from <= to <= cs@.len(),
    ensures
        spans_within(r@, from as int, to as int),
        spans_text(cs@, r@) == lines_of(cs@.subrange(from as int, to as int)),
{
    let ghost whole = lines_of(cs@.subrange(from as int, to as int));
    let mut r: Vec<Span> = Vec::new();
    let mut start: usize = from;
    while start < to
        invariant
            from <= start <= to <= cs@.len(),
            spans_within(r@, from as int, to as int),
            whole == lines_of(cs@.subrange(from as int, to as int)),
            spans_text(cs@, r@) + lines_of(cs@.subrange(start as int, to as int)) == whole,
        decreases to - start,
    {
        let ghost rest = cs@.subrange(start as int, to as int);
        let ghost before = r@;
        proof {
            lemma_first_index(rest, '\n');
        }
        match find_char(cs, start, to, '\n') {
            None => {
                r.push((start, to));
                assert(lines_of(rest) == seq![rest]);
                assert(spans_text(cs@, r@) =~= spans_text(cs@, before) + seq![rest]);
                assert(lines_of(cs@.subrange(to as int, to as int)) =~= Seq::<Seq<char>>::empty());
                assert(spans_text(cs@, r@) + lines_of(cs@.subrange(to as int, to as int)) =~= spans_text(cs@, r@));
                return r;
            },
            Some(j) => {
                let end: usize = if j > start && cs[j - 1] == '\r' {
                    j - 1
                } else {
                    j
                };
                r.push((start, end));
                proof {
                    let line = rest.subrange(0, j - start);
                    assert(line =~= cs@.subrange(start as int, j as int));
                    assert(strip_cr(line) =~= cs@.subrange(start as int, end as int));
                    assert(rest.subrange(j - start + 1, rest.len() as int) =~= cs@.subrange(j + 1, to as int));
                    assert(spans_text(cs@, r@) =~= spans_text(cs@, before) + seq![strip_cr(line)]);
                }
                start = j + 1;
            },
        }
    }
    assert(lines_of(cs@.subrange(start as int, to as int)) =~= Seq::<Seq<char>>::empty());
    assert(spans_text(cs@, r@) + lines_of(cs@.subrange(start as int, to as int)) =~= spans_text(cs@, r@));
    r
}

/// A character that is one of the ten ASCII digits.
pub open spec fn is_digit(c: char) -> bool {
    48 <= c as u32 <= 57
}

pub open spec fn digit_value(c: char) -> nat {
    (c as u32 - 48) as nat
}

pub open spec fn all_digits(s: Seq<char>) -> bool {
    forall|i: int| 0 <= i < s.len() ==> is_digit(#[trigger] s[i])
}

/// The number that the decimal digits `s` write, most significant first.
pub open spec fn digits_value(s: Seq<char>) -> nat
    decreases s.len(),
{
    if s.len() == 0 {
        0
    } else {
        digits_value(s.drop_last()) * 10 + digit_value(s.last())
    }
}

/// `s` without one leading `+`, if it has one.
pub open spec fn unsigned_digits(s: Seq<char>) -> Seq<char> {
    if s.len() > 0 && s[0] == '+' {
        s.subrange(1, s.len() as int)
    } else {
        s
    }
}

/// The unsigned integer that `s` writes, as std's `FromStr` for an unsigned
/// type whose largest value is `max` reads it: an optional `+`, then one or
/// more decimal digits, and a value no larger than `max`.
pub open spec fn parse_unsigned(s: Seq<char>, max: nat) -> Option<nat> {
    let d = unsigned_digits(s);
    if d.len() > 0 && all_digits(d) && digits_value(d) <= max {
        Some(digits_value(d))
    } else {
        None
    }
}

proof fn lemma_digits_prefix(d: Seq<char>, k: int)
    requires
        all_digits(d),
        0 <= k <= d.len(),
    ensures
        digits_value(d.subrange(0, k)) <= digits_value(d),
    decreases d.len() - k,
{
    if k < d.len() {
        lemma_digits_prefix(d, k + 1);
        assert(d.subrange(0, k + 1).drop_last() =~= d.subrange(0, k));
    } else {
        assert(d.subrange(0, k) =~= d);
    }
}

/// Reads the unsigned decimal number written by `cs[from..to]`, no larger
/// than `max`.
pub fn parse_decimal(cs: &Vec<char>, from: usize, to: usize, max: usize) -> (r: Option<usize>)
    requires
        from <= to <= cs@.len(),
    ensures
        match parse_unsigned(cs@.subrange(from as int, to as int), max as nat) {
            Some(v) => r == Some(v as usize),
            None => r is None,
        },
{
    let ghost s = cs@.subrange(from as int, to as int);
    let mut start: usize = from;
    if from < to && cs[from] == '+' {
        start = from + 1;
    }
    let ghost d = cs@.subrange(start as int, to as int);
    assert(d =~= unsigned_digits(s));
    if start == to {
        return None;
    }
    let mut val: usize = 0;
    let mut i: usize = start;
    assert(d.subrange(0, 0) =~= Seq::<char>::empty());
    while i < to
        invariant
            start <= i <= to <= cs@.len(),
            d == cs@.subrange(start as int, to as int),
            d == unsigned_digits(s),
            s == cs@.subrange(from as int, to as int),
            all_digits(d.subrange(0, i - start)),
            val as nat == digits_value(d.subrange(0, i - start)),
            val <= max,
        decreases to - i,
    {
        let ch = cs[i];
        let cv = ch as u32;
        if cv < 48 || cv > 57 {
            assert(!is_digit(d[i - start]));
            return None;
        }
        let dv = (cv - 48) as usize;
        let ghost k = i - start;
        proof {
            assert(d.subrange(0, k + 1).drop_last() =~= d.subrange(0, k));
            assert(d.subrange(0, k + 1).last() == ch);
            assert(all_digits(d.subrange(0, k + 1)));
        }
        if dv > max || val > (max - dv) / 10 {
            proof {
                let m = max as int;
                let v = val as int;
                let e = dv as int;
                assert(v * 10 + e > m) by (nonlinear_arith)
                    requires
                        e > m || v > (m - e) / 10,
                        v >= 0,
                        e >= 0,
                ;
                if all_digits(d) {
                    lemma_digits_prefix(d, k + 1);
                }
            }
            return None;
        }
        proof {
            let m = max as int;
            let v = val as int;
            let e = dv as int;
            assert(v * 10 + e <= m) by (nonlinear_arith)
                requires
                    e <= m,
                    v <= (m - e) / 10,
                    v >= 0,
            ;
        }
        val = val * 10 + dv;
        i = i + 1;
    }
    assert(d.subrange(0, d.len() as int) =~= d);
    Some(val)
}

} // verus!
