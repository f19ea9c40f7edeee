use crate::attrs::{
    attr_pairs, attrs_of, dep_pairs, dep_pairs_view, deps_of, text_pairs_view,
};
use crate::fields::{
    chars_of, chars_view, lemma_split_pieces_short, parse_number, parse_usize, split, split_chars,
};
use crate::text::{Text, MAX_TEXT_CHARS};
use vstd::prelude::*;

verus! {

/// One token line: the ten columns of CoNLL-U, decoded.
#[derive(Debug, Clone)]
pub struct Word {
    pub id: usize,
    pub form: Text,
    pub lemma: Text,
    pub upos: Text,
    pub xpos: Text,
    pub feats: Vec<(Text, Text)>,
    pub head: usize,
    pub deprel: Text,
    pub deps: Vec<(usize, Text)>,
    pub misc: Vec<(Text, Text)>,
}

/// What a word holds, as plain sequences.
pub struct WordView {
    pub id: usize,
    pub form: Seq<char>,
    pub lemma: Seq<char>,
    pub upos: Seq<char>,
    pub xpos: Seq<char>,
    pub feats: Seq<(Seq<char>, Seq<char>)>,
    pub head: usize,
    pub deprel: Seq<char>,
    pub deps: Seq<(usize, Seq<char>)>,
    pub misc: Seq<(Seq<char>, Seq<char>)>,
}

impl View for Word {
    type V = WordView;

    open spec fn view(&self) -> WordView {
        WordView {
            id: self.id,
            form: self.form@,
            lemma: self.lemma@,
            upos: self.upos@,
            xpos: self.xpos@,
            feats: text_pairs_view(self.feats@),
            head: self.head,
            deprel: self.deprel@,
            deps: dep_pairs_view(self.deps@),
            misc: text_pairs_view(self.misc@),
        }
    }
}

/// Why a document could not be decoded; `line` is the position of the
/// offending line in the input, counted from 0.
#[derive(Debug, Clone, Copy, PartialEq, Eq, Structural)]
pub enum ConlluError {
    /// The first column does not read as an unsigned number.
    BadIndex { line: usize },
    /// A word other than a first one comes before any sentence has begun.
    OrphanWord { line: usize },
    /// A head index in the enhanced-dependency column does not read as an
    /// unsigned number.
    BadDepHead { line: usize },
}

pub open spec fn is_comment(line: Seq<char>) -> bool {
    line.len() > 0 && line[0] == '#'
}

/// A line that is neither a comment nor short of the ten columns.
pub open spec fn is_token_line(line: Seq<char>) -> bool {
    !is_comment(line) && split(line, '\t').len() >= 10
}

/// The head column's value; 0 where it does not read as a number.
pub open spec fn head_of(field: Seq<char>) -> usize {
    match parse_usize(field) {
        Some(n) => n,
        None => 0,
    }
}

pub open spec fn word_of(f: Seq<Seq<char>>, id: usize, deps: Seq<(usize, Seq<char>)>) -> WordView {
    WordView {
        id: id,
        form: f[1],
        lemma: f[2],
        upos: f[3],
        xpos: f[4],
        feats: attr_pairs(f[5], '='),
        head: head_of(f[6]),
        deprel: f[7],
        deps: deps,
        misc: attr_pairs(f[9], '='),
    }
}

/// The document after one more line, the `i`-th.
pub open spec fn step(d: Seq<Seq<WordView>>, line: Seq<char>, i: usize) -> Result<
    Seq<Seq<WordView>>,
    ConlluError,
> {
    let f = split(line, '\t');
    if !is_token_line(line) {
        Ok(d)
    } else {
        match parse_usize(f[0]) {
            None => Err(ConlluError::BadIndex { line: i }),
            Some(id) => {
                if id != 1 && d.len() == 0 {
                    Err(ConlluError::OrphanWord { line: i })
                } else {
                    match dep_pairs(f[8]) {
                        None => Err(ConlluError::BadDepHead { line: i }),
                        Some(deps) => {
                            let w = word_of(f, id, deps);
                            if id == 1 {
                                Ok(d.push(seq![w]))
                            } else {
                                Ok(d.update(d.len() - 1, d.last().push(w)))
                            }
                        },
                    }
                }
            },
        }
    }
}

/// The sentences that a run of lines decodes to, or the first error.
pub open spec fn parse_lines(lines: Seq<Seq<char>>) -> Result<Seq<Seq<WordView>>, ConlluError>
    decreases lines.len(),
{
    if lines.len() == 0 {
        Ok(Seq::empty())
    } else {
        match parse_lines(lines.drop_last()) {
            Err(e) => Err(e),
            Ok(d) => step(d, lines.last(), (lines.len() - 1) as usize),
        }
    }
}

pub open spec fn lines_view(lines: Seq<String>) -> Seq<Seq<char>> {
    lines.map_values(|s: String| s@)
}

pub open spec fn sentences_view(d: Seq<Vec<Word>>) -> Seq<Seq<WordView>> {
    d.map_values(|s: Vec<Word>| s@.map_values(|w: Word| w@))
}

pub open spec fn result_view(r: Result<Vec<Vec<Word>>, ConlluError>) -> Result<
    Seq<Seq<WordView>>,
    ConlluError,
> {
    match r {
        Ok(d) => Ok(sentences_view(d@)),
        Err(e) => Err(e),
    }
}

fn head_number(field: &[char]) -> (r: usize)
    ensures
        r == head_of(field@),
{
    match parse_number(field) {
        Some(n) => n,
        None => 0,
    }
}

/// Reads a head column: its number, or 0 where it does not read as an
/// unsigned number (the placeholder `_` among them).
pub fn parse_head(field: &str) -> (r: usize)
    ensures
        r == head_of(field@),
        parse_usize(field@) is None ==> r == 0,
{
    let cs = chars_of(field);
    head_number(cs.as_slice())
}

/// Builds the word of a token line from its columns; `None` where the
/// enhanced-dependency column holds a head index that is not a number.
fn word_from_fields(f: &Vec<Vec<char>>, id: usize) -> (r: Option<Word>)
    requires
        f@.len() >= 10,
        forall|k: int| 0 <= k < f@.len() ==> (#[trigger] f@[k])@.len() <= MAX_TEXT_CHARS,
    ensures
        r is Some <==> dep_pairs(chars_view(f@)[8]) is Some,
        r is Some ==> r->Some_0@ == word_of(
            chars_view(f@),
            id,
            dep_pairs(chars_view(f@)[8])->Some_0,
        ),
{
    let deps = match deps_of(f[8].as_slice()) {
        Some(deps) => deps,
        None => {
            return None;
        },
    };
    let head = head_number(f[6].as_slice());
    let w = Word {
        id: id,
        form: Text::from_chars(f[1].as_slice()),
        lemma: Text::from_chars(f[2].as_slice()),
        upos: Text::from_chars(f[3].as_slice()),
        xpos: Text::from_chars(f[4].as_slice()),
        feats: attrs_of(f[5].as_slice(), '='),
        head: head,
        deprel: Text::from_chars(f[7].as_slice()),
        deps: deps,
        misc: attrs_of(f[9].as_slice(), '='),
    };
    assert(w@ =~= word_of(chars_view(f@), id, dep_pairs(chars_view(f@)[8])->Some_0));
    Some(w)
}

proof fn lemma_error_stays(lines: Seq<Seq<char>>, k: int)
    requires
        0 <= k <= lines.len(),
        parse_lines(lines.take(k)) is Err,
    ensures
        parse_lines(lines) == parse_lines(lines.take(k)),
    decreases lines.len() - k,
{
    if k < lines.len() {
        assert(lines.take(k + 1).drop_last() =~= lines.take(k));
        lemma_error_stays(lines, k + 1);
    } else {
        assert(lines.take(k) =~= lines);
    }
}

/// Takes one more line, the `i`-th of the input, into a document being
/// decoded. A comment line or one of fewer than ten tab-separated columns
/// leaves the document as it was; a word of index 1 begins a new sentence
/// and any other joins the last one. It fails, leaving the document as it
/// was, where the first column does not read as an unsigned number
/// (`BadIndex`), where a word other than a first one comes before any
/// sentence (`OrphanWord`), or where a head index in the enhanced-dependency
/// column does not read as an unsigned number (`BadDepHead`).
pub fn push_line(doc: &mut Vec<Vec<Word>>, line: &str, i: usize) -> (r: Result<(), ConlluError>)
    requires
        line@.len() <= MAX_TEXT_CHARS,
    ensures
        r is Ok <==> step(sentences_view(old(doc)@), line@, i) is Ok,
        r is Ok ==> sentences_view(final(doc)@) == step(sentences_view(old(doc)@), line@, i)->Ok_0,
        r is Err ==> r->Err_0 == step(sentences_view(old(doc)@), line@, i)->Err_0,
        r is Err ==> final(doc)@ == old(doc)@,
{
    let ghost d = sentences_view(doc@);
    let cs = chars_of(line);
    let f = split_chars(cs.as_slice(), '\t');
    if (cs.len() > 0 && cs[0] == '#') || f.len() < 10 {
        assert(!is_token_line(cs@));
        return Ok(());
    }
    let id = match parse_number(f[0].as_slice()) {
        Some(id) => id,
        None => {
            return Err(ConlluError::BadIndex { line: i });
        },
    };
    if id != 1 && doc.len() == 0 {
        return Err(ConlluError::OrphanWord { line: i });
    }
    proof {
        lemma_split_pieces_short(cs@, '\t');
        assert forall|k: int| 0 <= k < f@.len() implies (#[trigger] f@[k])@.len()
            <= MAX_TEXT_CHARS by {
            assert(chars_view(f@)[k] == f@[k]@);
        }
    }
    let w = match word_from_fields(&f, id) {
        Some(w) => w,
        None => {
            return Err(ConlluError::BadDepHead { line: i });
        },
    };
    if id == 1 {
        let ghost old_doc = doc@;
        let mut s: Vec<Word> = Vec::new();
        s.push(w);
        assert(s@.map_values(|x: Word| x@) =~= seq![w@]);
        doc.push(s);
        assert forall|k: int| 0 <= k < old_doc.len() implies sentences_view(doc@)[k] == d[k] by {
            assert(doc@[k] == old_doc[k]);
        }
        assert(sentences_view(doc@) =~= d.push(seq![w@]));
    } else {
        let ghost old_doc = doc@;
        let mut s = doc.pop().unwrap();
        let ghost old_s = s@;
        assert(old_s.map_values(|x: Word| x@) == d.last());
        s.push(w);
        assert(s@.map_values(|x: Word| x@) =~= d.last().push(w@));
        doc.push(s);
        assert forall|k: int| 0 <= k < old_doc.len() - 1 implies sentences_view(doc@)[k]
            == d[k] by {
            assert(doc@[k] == old_doc[k]);
        }
        assert(sentences_view(doc@) =~= d.update(d.len() - 1, d.last().push(w@)));
    }
    Ok(())
}

/// Decodes CoNLL-U lines into sentences of words, line by line as
/// `push_line` takes them: comment lines and lines of fewer than ten
/// tab-separated columns are passed over, a word of index 1 begins a new
/// sentence and any other joins the current one. It fails, with no document,
/// at the first line whose index does not read as an unsigned number
/// (`BadIndex`), that holds a word other than a first one before any
/// sentence (`OrphanWord`), or whose enhanced-dependency column holds a head
/// index that does not read as an unsigned number (`BadDepHead`).
pub fn parse_conllu(lines: Vec<String>) -> (r: Result<Vec<Vec<Word>>, ConlluError>)
    requires
        forall|k: int| 0 <= k < lines@.len() ==> (#[trigger] lines@[k])@.len() <= MAX_TEXT_CHARS,
    ensures
        result_view(r) == parse_lines(lines_view(lines@)),
{
    let ghost lv = lines_view(lines@);
    let mut ans: Vec<Vec<Word>> = Vec::new();
    let mut i: usize = 0;
    assert(lv.take(0) =~= Seq::<Seq<char>>::empty());
    assert(sentences_view(ans@) =~= Seq::<Seq<WordView>>::empty());
    while i < lines.len()
        invariant
            i <= lines@.len(),
            lv == lines_view(lines@),
            forall|k: int| 0 <= k < lines@.len() ==> (#[trigger] lines@[k])@.len() <= MAX_TEXT_CHARS,
            parse_lines(lv.take(i as int)) == Ok::<Seq<Seq<WordView>>, ConlluError>(
                sentences_view(ans@),
            ),
        decreases lines@.len() - i,
    {
        assert(lv.take(i + 1).drop_last() =~= lv.take(i as int));
        assert(lv.take(i + 1).last() == lines@[i as int]@);
        match push_line(&mut ans, lines[i].as_str(), i) {
            Ok(()) => {},
            Err(e) => {
                proof {
                    lemma_error_stays(lv, i + 1);
                }
                return Err(e);
            },
        }
        i = i + 1;
    }
    assert(lv.take(i as int) =~= lv);
    Ok(ans)
}

/// A token line whose first column reads as 1.
pub open spec fn opens_sentence(line: Seq<char>) -> bool {
    is_token_line(line) && parse_usize(split(line, '\t')[0]) == Some(1usize)
}

/// How many lines open a sentence.
pub open spec fn count_openers(lines: Seq<Seq<char>>) -> nat
    decreases lines.len(),
{
    if lines.len() == 0 {
        0
    } else {
        count_openers(lines.drop_last()) + if opens_sentence(lines.last()) {
            1nat
        } else {
            0nat
        }
    }
}

/// For each sentence, how many token lines lie from its opening line up to
/// the next one.
pub open spec fn span_lengths(lines: Seq<Seq<char>>) -> Seq<nat>
    decreases lines.len(),
{
    if lines.len() == 0 {
        Seq::empty()
    } else {
        let prev = span_lengths(lines.drop_last());
        let line = lines.last();
        if !is_token_line(line) {
            prev
        } else if opens_sentence(line) {
            prev.push(1)
        } else if prev.len() == 0 {
            prev
        } else {
            prev.update(prev.len() - 1, prev.last() + 1)
        }
    }
}

proof fn lemma_prefix_ok(lines: Seq<Seq<char>>)
    requires
        lines.len() > 0,
        parse_lines(lines) is Ok,
    ensures
        parse_lines(lines.drop_last()) is Ok,
{
}

/// A decoded document has as many sentences as the input has lines that
/// open one: token lines whose index reads as 1.
pub proof fn lemma_sentence_count(lines: Seq<Seq<char>>)
    requires
        parse_lines(lines) is Ok,
    ensures
        parse_lines(lines)->Ok_0.len() == count_openers(lines),
    decreases lines.len(),
{
    if lines.len() > 0 {
        lemma_prefix_ok(lines);
        lemma_sentence_count(lines.drop_last());
    }
}

/// Each decoded sentence holds exactly the token lines of its span: from
/// its opening line up to the next opening line or the end.
pub proof fn lemma_sentence_lengths(lines: Seq<Seq<char>>)
    requires
        parse_lines(lines) is Ok,
    ensures
        parse_lines(lines)->Ok_0.len() == span_lengths(lines).len(),
        forall|j: int|
            0 <= j < span_lengths(lines).len() ==> (#[trigger] parse_lines(lines)->Ok_0[j]).len()
                == span_lengths(lines)[j],
    decreases lines.len(),
{
    if lines.len() > 0 {
        lemma_prefix_ok(lines);
        lemma_sentence_lengths(lines.drop_last());
        let d = parse_lines(lines.drop_last())->Ok_0;
        let prev = span_lengths(lines.drop_last());
        let e = parse_lines(lines)->Ok_0;
        let sp = span_lengths(lines);
        assert forall|j: int| 0 <= j < sp.len() implies (#[trigger] e[j]).len() == sp[j] by {
            assert(d[j].len() == prev[j] || j == sp.len() - 1);
        }
    }
}

/// A token line whose head column does not read as a number gives a word
/// of head 0.
pub proof fn lemma_head_fallback(f: Seq<Seq<char>>, id: usize, deps: Seq<(usize, Seq<char>)>)
    requires
        f.len() >= 10,
        parse_usize(f[6]) is None,
    ensures
        word_of(f, id, deps).head == 0,
{
}

} // verus!
