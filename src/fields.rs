use vstd::prelude::*;

verus! {

/// The pieces of `s` between occurrences of `d`, as `str::split` yields
/// them: one more piece than there are delimiters, empty pieces kept.
pub open spec fn split(s: Seq<char>, d: char) -> Seq<Seq<char>>
    decreases s.len(),
{
    if s.len() == 0 {
        seq![Seq::<char>::empty()]
    } else {
        let prev = split(s.drop_last(), d);
        if s.last() == d {
            prev.push(Seq::<char>::empty())
        } else {
            prev.update(prev.len() - 1, prev.last().push(s.last()))
        }
    }
}

pub proof fn lemma_split_nonempty(s: Seq<char>, d: char)
    ensures
        split(s, d).len() >= 1,
    decreases s.len(),
{
    if s.len() > 0 {
        lemma_split_nonempty(s.drop_last(), d);
    }
}

/// No piece is longer than the string it was split from.
pub proof fn lemma_split_pieces_short(s: Seq<char>, d: char)
    ensures
        forall|k: int| 0 <= k < split(s, d).len() ==> (#[trigger] split(s, d)[k]).len() <= s.len(),
    decreases s.len(),
{
    lemma_split_nonempty(s, d);
    if s.len() > 0 {
        lemma_split_pieces_short(s.drop_last(), d);
        lemma_split_nonempty(s.drop_last(), d);
    }
}

/// Splitting at a delimiter that joins two strings splits each of them.
pub proof fn lemma_split_join(a: Seq<char>, b: Seq<char>, d: char)
    ensures
        split(a + seq![d] + b, d) == split(a, d) + split(b, d),
    decreases b.len(),
{
    lemma_split_nonempty(a, d);
    let s = a + seq![d] + b;
    if b.len() == 0 {
        assert(s.drop_last() =~= a);
        assert(split(b, d) =~= seq![Seq::<char>::empty()]);
        assert(split(s, d) =~= split(a, d) + split(b, d));
    } else {
        let b1 = b.drop_last();
        assert(s.drop_last() =~= a + seq![d] + b1);
        lemma_split_join(a, b1, d);
        lemma_split_nonempty(b1, d);
        assert(split(s, d) =~= split(a, d) + split(b, d));
    }
}

/// A string without the delimiter is one piece.
pub proof fn lemma_split_single(s: Seq<char>, d: char)
    requires
        !s.contains(d),
    ensures
        split(s, d) == seq![s],
    decreases s.len(),
{
    if s.len() > 0 {
        let s1 = s.drop_last();
        assert(!s1.contains(d)) by {
            if s1.contains(d) {
                let k = choose|k: int| 0 <= k < s1.len() && s1[k] == d;
                assert(s[k] == d);
            }
        }
        lemma_split_single(s1, d);
        assert(s[s.len() - 1] != d);
        assert(s1.push(s.last()) =~= s);
        assert(split(s, d) =~= seq![s]);
    } else {
        assert(s =~= Seq::<char>::empty());
        assert(split(s, d) =~= seq![s]);
    }
}

pub open spec fn chars_view(v: Seq<Vec<char>>) -> Seq<Seq<char>> {
    v.map_values(|x: Vec<char>| x@)
}

/// The characters of a string, in order.
pub fn chars_of(s: &str) -> (r: Vec<char>)
    ensures
        r@ == s@,
{
    let mut r: Vec<char> = Vec::new();
    for c in it: s.chars()
        invariant
            r@ == it.seq().take(it.index() as int),
    {
        r.push(c);
    }
    r
}

/// Splits `s` at every occurrence of `d`.
pub fn split_chars(s: &[char], d: char) -> (r: Vec<Vec<char>>)
    ensures
        chars_view(r@) == split(s@, d),
{
    let mut pieces: Vec<Vec<char>> = Vec::new();
    let mut cur: Vec<char> = Vec::new();
    let mut i: usize = 0;
    assert(s@.take(0) =~= Seq::<char>::empty());
    assert(chars_view(pieces@).push(cur@) =~= split(s@.take(0), d));
    while i < s.len()
        invariant
            i <= s@.len(),
            chars_view(pieces@).push(cur@) == split(s@.take(i as int), d),
        decreases s@.len() - i,
    {
        let c = s[i];
        assert(s@.take(i + 1).drop_last() =~= s@.take(i as int));
        assert(s@.take(i + 1).last() == c);
        if c == d {
            let done = cur;
            pieces.push(done);
            cur = Vec::new();
            assert(chars_view(pieces@).push(cur@) =~= split(s@.take(i + 1), d));
        } else {
            cur.push(c);
            assert(chars_view(pieces@).push(cur@) =~= split(s@.take(i + 1), d));
        }
        i = i + 1;
    }
    assert(s@.take(i as int) =~= s@);
    pieces.push(cur);
    assert(chars_view(pieces@) =~= split(s@, d));
    pieces
}

pub open spec fn is_digit(c: char) -> bool {
    '0' <= c && c <= '9'
}

pub open spec fn digit_value(c: char) -> nat {
    (c as u32 - '0' as u32) as nat
}

/// The number that a string of decimal digits denotes.
pub open spec fn digits_value(s: Seq<char>) -> nat
    decreases s.len(),
{
    if s.len() == 0 {
        0
    } else {
        digits_value(s.drop_last()) * 10 + digit_value(s.last())
    }
}

/// The digits of an unsigned number: an optional leading `+` dropped.
pub open spec fn unsigned_digits(s: Seq<char>) -> Seq<char> {
    if s.len() > 0 && s[0] == '+' {
        s.drop_first()
    } else {
        s
    }
}

/// The value of `s` read as `usize::from_str` reads it: an optional `+`,
/// then one or more decimal digits, of a value that fits in `usize`.
pub open spec fn parse_usize(s: Seq<char>) -> Option<usize> {
    let t = unsigned_digits(s);
    if t.len() > 0 && (forall|i: int| 0 <= i < t.len() ==> is_digit(#[trigger] t[i]))
        && digits_value(t) <= usize::MAX {
        Some(digits_value(t) as usize)
    } else {
        None
    }
}

proof fn lemma_digits_value_grows(s: Seq<char>, j: int, k: int)
    requires
        0 <= j <= k <= s.len(),
    ensures
        digits_value(s.take(j)) <= digits_value(s.take(k)),
    decreases k - j,
{
    if j < k {
        lemma_digits_value_grows(s, j, k - 1);
        assert(s.take(k).drop_last() =~= s.take(k - 1));
    }
}

/// Reads an unsigned number; `None` where `usize::from_str` fails.
pub fn parse_number(s: &[char]) -> (r: Option<usize>)
    ensures
        r == parse_usize(s@),
{
    let start: usize = if s.len() > 0 && s[0] == '+' { 1 } else { 0 };
    let ghost t = unsigned_digits(s@);
    assert(t =~= s@.skip(start as int));
    if start >= s.len() {
        return None;
    }
    let mut value: usize = 0;
    let mut i: usize = start;
    assert(t.take(0) =~= Seq::<char>::empty());
    while i < s.len()
        invariant
            start <= i <= s@.len(),
            t == s@.skip(start as int),
            t == unsigned_digits(s@),
            value as nat == digits_value(t.take(i - start)),
            forall|j: int| 0 <= j < i - start ==> is_digit(#[trigger] t[j]),
        decreases s@.len() - i,
    {
        let c = s[i];
        assert(t[i - start] == c);
        if !('0' <= c && c <= '9') {
            assert(!is_digit(t[i - start]));
            return None;
        }
        let d = (c as u32 - '0' as u32) as usize;
        assert(t.take(i - start + 1).drop_last() =~= t.take(i - start));
        assert(d as nat == digit_value(c));
        assert(digits_value(t.take(i - start + 1)) == value * 10 + d);
        if value > (usize::MAX - d) / 10 {
            assert(digits_value(t.take(i - start + 1)) > usize::MAX) by (nonlinear_arith)
                requires
                    value > (usize::MAX - d) / 10,
                    digits_value(t.take(i - start + 1)) == value * 10 + d,
                    d <= 9,
            ;
            proof {
                lemma_digits_value_grows(t, i - start + 1, t.len() as int);
                assert(t.take(t.len() as int) =~= t);
                assert(digits_value(t) > usize::MAX);
            }
            return None;
        }
        assert(value * 10 + d <= usize::MAX) by (nonlinear_arith)
            requires
                value <= (usize::MAX - d) / 10,
                d <= 9,
        ;
        value = value * 10 + d;
        i = i + 1;
    }
    assert(t.take(i - start) =~= t);
    Some(value)
}

} // verus!
