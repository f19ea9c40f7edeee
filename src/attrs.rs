use crate::fields::{
    chars_of, chars_view, lemma_split_join, lemma_split_pieces_short, lemma_split_single, parse_number, parse_usize, split,
    split_chars,
};
use crate::text::{Text, MAX_TEXT_CHARS};
use vstd::prelude::*;

verus! {

/// The placeholder that stands for an empty field.
pub open spec fn placeholder() -> Seq<char> {
    seq!['_']
}

/// An item split at `sep`: a pair where `sep` occurs in it exactly once.
pub open spec fn pair_of(item: Seq<char>, sep: char) -> Option<(Seq<char>, Seq<char>)> {
    let p = split(item, sep);
    if p.len() == 2 {
        Some((p[0], p[1]))
    } else {
        None
    }
}

/// The pairs of a run of items, in order, malformed items left out.
pub open spec fn item_pairs(items: Seq<Seq<char>>, sep: char) -> Seq<(Seq<char>, Seq<char>)>
    decreases items.len(),
{
    if items.len() == 0 {
        Seq::empty()
    } else {
        let prev = item_pairs(items.drop_last(), sep);
        match pair_of(items.last(), sep) {
            Some(p) => prev.push(p),
            None => prev,
        }
    }
}

/// The key/value pairs of a `|`-separated attribute field.
pub open spec fn attr_pairs(text: Seq<char>, sep: char) -> Seq<(Seq<char>, Seq<char>)> {
    if text == placeholder() {
        Seq::empty()
    } else {
        item_pairs(split(text, '|'), sep)
    }
}

/// Every key of the pairs reads as an unsigned number.
pub open spec fn keys_are_numbers(ps: Seq<(Seq<char>, Seq<char>)>) -> bool {
    forall|i: int| 0 <= i < ps.len() ==> (#[trigger] parse_usize(ps[i].0)) is Some
}

/// The pairs of an enhanced-dependency field: `None` where a head index does
/// not read as a number.
pub open spec fn dep_pairs(text: Seq<char>) -> Option<Seq<(usize, Seq<char>)>> {
    let ps = attr_pairs(text, ':');
    if keys_are_numbers(ps) {
        Some(ps.map_values(|p: (Seq<char>, Seq<char>)| (parse_usize(p.0)->Some_0, p.1)))
    } else {
        None
    }
}

pub open spec fn raw_view(v: Seq<(Vec<char>, Vec<char>)>) -> Seq<(Seq<char>, Seq<char>)> {
    v.map_values(|p: (Vec<char>, Vec<char>)| (p.0@, p.1@))
}

pub open spec fn text_pairs_view(v: Seq<(Text, Text)>) -> Seq<(Seq<char>, Seq<char>)> {
    v.map_values(|p: (Text, Text)| (p.0@, p.1@))
}

pub open spec fn dep_pairs_view(v: Seq<(usize, Text)>) -> Seq<(usize, Seq<char>)> {
    v.map_values(|p: (usize, Text)| (p.0, p.1@))
}

fn is_placeholder(text: &[char]) -> (r: bool)
    ensures
        r == (text@ == placeholder()),
{
    if text.len() == 1 && text[0] == '_' {
        assert(text@ =~= placeholder());
        true
    } else {
        false
    }
}

proof fn lemma_item_pairs_short(items: Seq<Seq<char>>, sep: char, n: nat)
    requires
        forall|k: int| 0 <= k < items.len() ==> (#[trigger] items[k]).len() <= n,
    ensures
        forall|k: int|
            0 <= k < item_pairs(items, sep).len() ==> (#[trigger] item_pairs(items, sep)[k]).0.len()
                <= n && item_pairs(items, sep)[k].1.len() <= n,
    decreases items.len(),
{
    if items.len() > 0 {
        let prev = items.drop_last();
        assert forall|k: int| 0 <= k < prev.len() implies (#[trigger] prev[k]).len() <= n by {
            assert(prev[k] == items[k]);
        }
        lemma_item_pairs_short(prev, sep, n);
        lemma_split_pieces_short(items.last(), sep);
        assert(items.last().len() <= n);
        let pieces = split(items.last(), sep);
        if pieces.len() == 2 {
            assert(pieces[0].len() <= n && pieces[1].len() <= n);
        }
        let prev_pairs = item_pairs(prev, sep);
        assert forall|k: int| 0 <= k < item_pairs(items, sep).len() implies (#[trigger] item_pairs(
            items,
            sep,
        )[k]).0.len() <= n && item_pairs(items, sep)[k].1.len() <= n by {
            if k < prev_pairs.len() {
                assert(item_pairs(items, sep)[k] == prev_pairs[k]);
            }
        }
    }
}

/// No key or value is longer than the field it was decoded from.
pub proof fn lemma_attr_pairs_short(text: Seq<char>, sep: char)
    ensures
        forall|k: int|
            0 <= k < attr_pairs(text, sep).len() ==> (#[trigger] attr_pairs(text, sep)[k]).0.len()
                <= text.len() && attr_pairs(text, sep)[k].1.len() <= text.len(),
{
    lemma_split_pieces_short(text, '|');
    lemma_item_pairs_short(split(text, '|'), sep, text.len());
}

/// Splits an attribute field into its well-formed key/value pairs.
pub fn raw_pairs(text: &[char], sep: char) -> (r: Vec<(Vec<char>, Vec<char>)>)
    ensures
        raw_view(r@) == attr_pairs(text@, sep),
{
    let mut out: Vec<(Vec<char>, Vec<char>)> = Vec::new();
    if is_placeholder(text) {
        assert(raw_view(out@) =~= Seq::empty());
        return out;
    }
    let items = split_chars(text, '|');
    let ghost iv = chars_view(items@);
    let mut j: usize = 0;
    assert(iv.take(0) =~= Seq::<Seq<char>>::empty());
    assert(raw_view(out@) =~= Seq::empty());
    while j < items.len()
        invariant
            j <= items@.len(),
            iv == chars_view(items@),
            iv == split(text@, '|'),
            raw_view(out@) == item_pairs(iv.take(j as int), sep),
        decreases items@.len() - j,
    {
        let mut pieces = split_chars(items[j].as_slice(), sep);
        assert(iv.take(j + 1).drop_last() =~= iv.take(j as int));
        assert(iv.take(j + 1).last() == items@[j as int]@);
        if pieces.len() == 2 {
            let ghost pv = chars_view(pieces@);
            let value = pieces.pop().unwrap();
            let key = pieces.pop().unwrap();
            assert(key@ == pv[0] && value@ == pv[1]);
            out.push((key, value));
            assert(raw_view(out@) =~= item_pairs(iv.take(j + 1), sep));
        }
        j = j + 1;
    }
    assert(iv.take(j as int) =~= iv);
    out
}

/// Decodes a `|`-separated attribute field into its key/value pairs, in
/// order: items in which `sep` does not occur exactly once are left out, and
/// the placeholder `_` gives no pairs.
pub fn parse_attrs(text: &str, sep: char) -> (r: Vec<(Text, Text)>)
    requires
        text@.len() <= MAX_TEXT_CHARS,
    ensures
        text_pairs_view(r@) == attr_pairs(text@, sep),
        text@ == placeholder() ==> r@.len() == 0,
{
    let cs = chars_of(text);
    let r = attrs_of(cs.as_slice(), sep);
    assert(text_pairs_view(r@).len() == r@.len());
    r
}

pub fn attrs_of(text: &[char], sep: char) -> (r: Vec<(Text, Text)>)
    requires
        text@.len() <= MAX_TEXT_CHARS,
    ensures
        text_pairs_view(r@) == attr_pairs(text@, sep),
{
    let raw = raw_pairs(text, sep);
    proof {
        lemma_attr_pairs_short(text@, sep);
        assert forall|k: int| 0 <= k < raw@.len() implies (#[trigger] raw@[k]).0@.len()
            <= MAX_TEXT_CHARS && raw@[k].1@.len() <= MAX_TEXT_CHARS by {
            assert(raw_view(raw@)[k] == (raw@[k].0@, raw@[k].1@));
        }
    }
    let mut out: Vec<(Text, Text)> = Vec::new();
    let mut j: usize = 0;
    while j < raw.len()
        invariant
            j <= raw@.len(),
            out@.len() == j,
            text@.len() <= MAX_TEXT_CHARS,
            raw_view(raw@) == attr_pairs(text@, sep),
            forall|k: int|
                0 <= k < raw@.len() ==> (#[trigger] raw@[k]).0@.len() <= MAX_TEXT_CHARS
                    && raw@[k].1@.len() <= MAX_TEXT_CHARS,
            text_pairs_view(out@) == raw_view(raw@).take(j as int),
        decreases raw@.len() - j,
    {
        let key = Text::from_chars(raw[j].0.as_slice());
        let value = Text::from_chars(raw[j].1.as_slice());
        let ghost prev = out@;
        out.push((key, value));
        assert forall|k: int| 0 <= k < j implies text_pairs_view(out@)[k] == raw_view(raw@)[k] by {
            assert(out@[k] == prev[k]);
            assert(text_pairs_view(prev)[k] == raw_view(raw@).take(j as int)[k]);
        }
        assert(text_pairs_view(out@) =~= raw_view(raw@).take(j + 1));
        j = j + 1;
    }
    assert(raw_view(raw@).take(j as int) =~= raw_view(raw@));
    out
}

/// Decodes an enhanced-dependency field into (head index, relation) pairs,
/// in order; `None` where a head index does not read as an unsigned number.
pub fn parse_deps(text: &str) -> (r: Option<Vec<(usize, Text)>>)
    requires
        text@.len() <= MAX_TEXT_CHARS,
    ensures
        r is Some <==> dep_pairs(text@) is Some,
        r is Some ==> dep_pairs_view(r->Some_0@) == dep_pairs(text@)->Some_0,
        text@ == placeholder() ==> r is Some && r->Some_0@.len() == 0,
{
    let cs = chars_of(text);
    let r = deps_of(cs.as_slice());
    proof {
        if r is Some {
            assert(dep_pairs_view(r->Some_0@).len() == r->Some_0@.len());
        }
    }
    r
}

pub fn deps_of(text: &[char]) -> (r: Option<Vec<(usize, Text)>>)
    requires
        text@.len() <= MAX_TEXT_CHARS,
    ensures
        r is Some <==> dep_pairs(text@) is Some,
        r is Some ==> dep_pairs_view(r->Some_0@) == dep_pairs(text@)->Some_0,
{
    let raw = raw_pairs(text, ':');
    let ghost ps = raw_view(raw@);
    proof {
        lemma_attr_pairs_short(text@, ':');
        assert forall|k: int| 0 <= k < raw@.len() implies (#[trigger] raw@[k]).1@.len()
            <= MAX_TEXT_CHARS by {
            assert(ps[k] == (raw@[k].0@, raw@[k].1@));
        }
    }
    let mut out: Vec<(usize, Text)> = Vec::new();
    let mut j: usize = 0;
    while j < raw.len()
        invariant
            j <= raw@.len(),
            ps == raw_view(raw@),
            ps == attr_pairs(text@, ':'),
            out@.len() == j,
            forall|k: int| 0 <= k < raw@.len() ==> (#[trigger] raw@[k]).1@.len() <= MAX_TEXT_CHARS,
            forall|k: int| 0 <= k < j ==> (#[trigger] parse_usize(ps[k].0)) is Some,
            dep_pairs_view(out@) == ps.take(j as int).map_values(
                |p: (Seq<char>, Seq<char>)| (parse_usize(p.0)->Some_0, p.1),
            ),
        decreases raw@.len() - j,
    {
        assert(raw@[j as int].0@ == ps[j as int].0);
        match parse_number(raw[j].0.as_slice()) {
            None => {
                assert(!keys_are_numbers(ps));
                return None;
            },
            Some(head) => {
                let rel = Text::from_chars(raw[j].1.as_slice());
                let ghost prev = out@;
                out.push((head, rel));
                assert forall|k: int| 0 <= k < j + 1 implies dep_pairs_view(out@)[k]
                    == ps.take(j + 1).map_values(
                    |p: (Seq<char>, Seq<char>)| (parse_usize(p.0)->Some_0, p.1),
                )[k] by {
                    if k < j {
                        assert(out@[k] == prev[k]);
                        assert(dep_pairs_view(prev)[k] == ps.take(j as int).map_values(
                            |p: (Seq<char>, Seq<char>)| (parse_usize(p.0)->Some_0, p.1),
                        )[k]);
                    } else {
                        assert(raw@[j as int].1@ == ps[j as int].1);
                        assert(out@[k] == (head, rel));
                    }
                }
                assert(dep_pairs_view(out@) =~= ps.take(j + 1).map_values(
                    |p: (Seq<char>, Seq<char>)| (parse_usize(p.0)->Some_0, p.1),
                ));
            },
        }
        j = j + 1;
    }
    assert(ps.take(j as int) =~= ps);
    Some(out)
}

proof fn lemma_item_pairs_join(x: Seq<Seq<char>>, y: Seq<Seq<char>>, sep: char)
    ensures
        item_pairs(x + y, sep) == item_pairs(x, sep) + item_pairs(y, sep),
    decreases y.len(),
{
    if y.len() == 0 {
        assert(x + y =~= x);
        assert(item_pairs(x, sep) + item_pairs(y, sep) =~= item_pairs(x, sep));
    } else {
        let y1 = y.drop_last();
        assert((x + y).drop_last() =~= x + y1);
        lemma_item_pairs_join(x, y1, sep);
        match pair_of(y.last(), sep) {
            Some(p) => {
                assert(item_pairs(x + y, sep) =~= item_pairs(x, sep) + item_pairs(y, sep));
            },
            None => {},
        }
    }
}

proof fn lemma_placeholder_items(sep: char)
    requires
        sep != '_',
    ensures
        item_pairs(split(placeholder(), '|'), sep) == Seq::<(Seq<char>, Seq<char>)>::empty(),
{
    assert(!placeholder().contains('|')) by {
        assert(placeholder()[0] == '_');
    }
    assert(!placeholder().contains(sep)) by {
        assert(placeholder()[0] == '_');
    }
    lemma_split_single(placeholder(), '|');
    lemma_split_single(placeholder(), sep);
    let one = seq![placeholder()];
    assert(one.drop_last() =~= Seq::<Seq<char>>::empty());
    assert(one.last() == placeholder());
    assert(pair_of(placeholder(), sep) is None);
    assert(item_pairs(one.drop_last(), sep) == Seq::<(Seq<char>, Seq<char>)>::empty());
    assert(item_pairs(one, sep) == Seq::<(Seq<char>, Seq<char>)>::empty());
}

/// The placeholder `_` gives no pairs, whatever the separator, and no
/// dependency pairs.
pub proof fn lemma_placeholder_is_empty(sep: char)
    ensures
        attr_pairs(placeholder(), sep) == Seq::<(Seq<char>, Seq<char>)>::empty(),
        dep_pairs(placeholder()) == Some(Seq::<(usize, Seq<char>)>::empty()),
{
    let ps = attr_pairs(placeholder(), ':');
    assert(ps.map_values(|p: (Seq<char>, Seq<char>)| (parse_usize(p.0)->Some_0, p.1))
        =~= Seq::<(usize, Seq<char>)>::empty());
}

/// Pairs keep the order of their items: the pairs of two fields joined by
/// `|` are the pairs of the first followed by those of the second, so that
/// repeated pairs are all kept. (A field `_` alone gives no pairs even where
/// the separator is `_` itself, hence the condition.)
pub proof fn lemma_pairs_keep_order(a: Seq<char>, b: Seq<char>, sep: char)
    requires
        sep != '_' || (a != placeholder() && b != placeholder()),
    ensures
        attr_pairs(a + seq!['|'] + b, sep) == attr_pairs(a, sep) + attr_pairs(b, sep),
{
    let s = a + seq!['|'] + b;
    assert((a + seq!['|'])[a.len() as int] == '|');
    assert(s[a.len() as int] == '|');
    assert(s != placeholder()) by {
        if s == placeholder() {
            assert(s.len() == 1);
            assert(s[0] == '|');
            assert(placeholder()[0] == '_');
        }
    }
    lemma_split_join(a, b, '|');
    lemma_item_pairs_join(split(a, '|'), split(b, '|'), sep);
    if a == placeholder() {
        lemma_placeholder_items(sep);
        assert(attr_pairs(a, sep) + attr_pairs(b, sep) =~= attr_pairs(b, sep));
    }
    if b == placeholder() {
        lemma_placeholder_items(sep);
        assert(attr_pairs(a, sep) + attr_pairs(b, sep) =~= attr_pairs(a, sep));
    }
}

/// Dependency pairs keep the order of their items too: where both parts
/// decode, two fields joined by `|` decode to the pairs of the first
/// followed by those of the second.
pub proof fn lemma_deps_keep_order(a: Seq<char>, b: Seq<char>)
    requires
        dep_pairs(a) is Some,
        dep_pairs(b) is Some,
    ensures
        dep_pairs(a + seq!['|'] + b) == Some(dep_pairs(a)->Some_0 + dep_pairs(b)->Some_0),
{
    lemma_pairs_keep_order(a, b, ':');
    let pa = attr_pairs(a, ':');
    let pb = attr_pairs(b, ':');
    let ps = attr_pairs(a + seq!['|'] + b, ':');
    assert(ps == pa + pb);
    assert forall|i: int| 0 <= i < ps.len() implies (#[trigger] parse_usize(ps[i].0)) is Some by {
        if i < pa.len() {
            assert(ps[i] == pa[i]);
            assert(parse_usize(pa[i].0) is Some);
        } else {
            assert(ps[i] == pb[i - pa.len()]);
            assert(parse_usize(pb[i - pa.len()].0) is Some);
        }
    }
    assert(ps.map_values(|p: (Seq<char>, Seq<char>)| (parse_usize(p.0)->Some_0, p.1))
        =~= pa.map_values(|p: (Seq<char>, Seq<char>)| (parse_usize(p.0)->Some_0, p.1))
        + pb.map_values(|p: (Seq<char>, Seq<char>)| (parse_usize(p.0)->Some_0, p.1)));
}

/// An item in which the separator does not occur exactly once is dropped
/// and leaves the pairs of the items around it as they were.
pub proof fn lemma_malformed_item_dropped(a: Seq<char>, item: Seq<char>, b: Seq<char>, sep: char)
    requires
        !item.contains('|'),
        pair_of(item, sep) is None,
    ensures
        attr_pairs(a + seq!['|'] + item + seq!['|'] + b, sep) == attr_pairs(
            a + seq!['|'] + b,
            sep,
        ),
{
    let s = a + seq!['|'] + item + seq!['|'] + b;
    let t = a + seq!['|'] + b;
    assert((a + seq!['|'])[a.len() as int] == '|');
    assert((a + seq!['|'] + item)[a.len() as int] == '|');
    assert(s[a.len() as int] == '|');
    assert(t[a.len() as int] == '|');
    assert(s != placeholder()) by {
        if s == placeholder() {
            assert(s.len() == 1);
            assert(s[0] == '|');
            assert(placeholder()[0] == '_');
        }
    }
    assert(t != placeholder()) by {
        if t == placeholder() {
            assert(t.len() == 1);
            assert(t[0] == '|');
            assert(placeholder()[0] == '_');
        }
    }
    let ai = a + seq!['|'] + item;
    assert(s =~= ai + seq!['|'] + b);
    lemma_split_join(ai, b, '|');
    lemma_split_join(a, item, '|');
    lemma_split_join(a, b, '|');
    lemma_split_single(item, '|');
    let one = seq![item];
    assert(one.drop_last() =~= Seq::<Seq<char>>::empty());
    assert(one.last() == item);
    assert(item_pairs(one.drop_last(), sep) == Seq::<(Seq<char>, Seq<char>)>::empty());
    assert(item_pairs(one, sep) =~= Seq::<(Seq<char>, Seq<char>)>::empty());
    lemma_item_pairs_join(split(a, '|') + one, split(b, '|'), sep);
    lemma_item_pairs_join(split(a, '|'), one, sep);
    lemma_item_pairs_join(split(a, '|'), split(b, '|'), sep);
    assert(item_pairs(split(a, '|'), sep) + Seq::<(Seq<char>, Seq<char>)>::empty() =~= item_pairs(
        split(a, '|'),
        sep,
    ));
}

/// The same holds of dependency pairs: a malformed item leaves them as
/// they were.
pub proof fn lemma_malformed_dep_item_dropped(a: Seq<char>, item: Seq<char>, b: Seq<char>)
    requires
        !item.contains('|'),
        pair_of(item, ':') is None,
    ensures
        dep_pairs(a + seq!['|'] + item + seq!['|'] + b) == dep_pairs(a + seq!['|'] + b),
{
    lemma_malformed_item_dropped(a, item, b, ':');
}

/// How many of the items hold the separator exactly once.
pub open spec fn well_formed_count(items: Seq<Seq<char>>, sep: char) -> nat
    decreases items.len(),
{
    if items.len() == 0 {
        0
    } else {
        well_formed_count(items.drop_last(), sep) + if pair_of(items.last(), sep) is Some {
            1nat
        } else {
            0nat
        }
    }
}

proof fn lemma_item_pairs_len(items: Seq<Seq<char>>, sep: char)
    ensures
        item_pairs(items, sep).len() == well_formed_count(items, sep),
    decreases items.len(),
{
    if items.len() > 0 {
        lemma_item_pairs_len(items.drop_last(), sep);
    }
}

proof fn lemma_count_grows(items: Seq<Seq<char>>, sep: char, i: int, j: int)
    requires
        0 <= i < j <= items.len(),
        pair_of(items[i], sep) is Some,
    ensures
        well_formed_count(items.take(i), sep) < well_formed_count(items.take(j), sep),
    decreases j - i,
{
    assert(items.take(j).drop_last() =~= items.take(j - 1));
    if j - 1 > i {
        lemma_count_grows(items, sep, i, j - 1);
    } else {
        assert(items.take(j).last() == items[i]);
    }
}

/// The pair of the `i`-th item, where it has one, stands at the position
/// given by the number of well-formed items before it.
proof fn lemma_item_pair_at(items: Seq<Seq<char>>, sep: char, i: int)
    requires
        0 <= i < items.len(),
        pair_of(items[i], sep) is Some,
    ensures
        well_formed_count(items.take(i), sep) < item_pairs(items, sep).len(),
        item_pairs(items, sep)[well_formed_count(items.take(i), sep) as int] == pair_of(
            items[i],
            sep,
        )->Some_0,
{
    let x = items.take(i + 1);
    let y = items.skip(i + 1);
    assert(items =~= x + y);
    lemma_item_pairs_join(x, y, sep);
    assert(x.drop_last() =~= items.take(i));
    assert(x.last() == items[i]);
    lemma_item_pairs_len(items.take(i), sep);
}

/// A well-formed field gives one pair for each item that holds the
/// separator exactly once, none merged, whatever the keys.
pub proof fn lemma_pair_count(text: Seq<char>, sep: char)
    requires
        text != placeholder(),
    ensures
        attr_pairs(text, sep).len() == well_formed_count(split(text, '|'), sep),
        dep_pairs(text) is Some ==> dep_pairs(text)->Some_0.len() == well_formed_count(
            split(text, '|'),
            ':',
        ),
{
    lemma_item_pairs_len(split(text, '|'), sep);
    lemma_item_pairs_len(split(text, '|'), ':');
}

/// Of two well-formed items, the earlier one's pair comes first: the pair
/// of item `i` stands at position `well_formed_count` of the items before
/// it, for text keys and for dependency pairs alike.
pub proof fn lemma_pairs_in_item_order(text: Seq<char>, sep: char, i: int, j: int)
    requires
        text != placeholder(),
        0 <= i < j < split(text, '|').len(),
        pair_of(split(text, '|')[i], sep) is Some,
        pair_of(split(text, '|')[j], sep) is Some,
    ensures
        ({
            let items = split(text, '|');
            let pi = well_formed_count(items.take(i), sep) as int;
            let pj = well_formed_count(items.take(j), sep) as int;
            &&& pi < pj < attr_pairs(text, sep).len()
            &&& attr_pairs(text, sep)[pi] == pair_of(items[i], sep)->Some_0
            &&& attr_pairs(text, sep)[pj] == pair_of(items[j], sep)->Some_0
            &&& sep == ':' && dep_pairs(text) is Some ==> {
                &&& dep_pairs(text)->Some_0[pi] == (
                    parse_usize(pair_of(items[i], sep)->Some_0.0)->Some_0,
                    pair_of(items[i], sep)->Some_0.1,
                )
                &&& dep_pairs(text)->Some_0[pj] == (
                    parse_usize(pair_of(items[j], sep)->Some_0.0)->Some_0,
                    pair_of(items[j], sep)->Some_0.1,
                )
            }
        }),
{
    let items = split(text, '|');
    lemma_count_grows(items, sep, i, j);
    lemma_item_pair_at(items, sep, i);
    lemma_item_pair_at(items, sep, j);
}

} // verus!
