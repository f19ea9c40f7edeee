use conllu::{
    parse_attrs, parse_conllu, parse_deps, parse_head, push_line, ConlluError, Text, Word,
    MAX_TEXT_CHARS,
};

const TEST_DATA: &str = "# sent_id = 1
# text = They buy and sell books.
1	They	they	PRON	PRP	Case=Nom|Number=Plur	2	nsubj	2:nsubj|4:nsubj	_
2	buy	buy	VERB	VBP	Number=Plur|Person=3|Tense=Pres	0	root	0:root	_
3	and	and	CONJ	CC	_	4	cc	4:cc	_
4	sell	sell	VERB	VBP	Number=Plur|Person=3|Tense=Pres	2	conj	0:root|2:conj	_
5	books	book	NOUN	NNS	Number=Plur	2	obj	2:obj|4:obj	SpaceAfter=No
6	.	.	PUNCT	.	_	2	punct	2:punct	_

# sent_id = 2
# text = I have no clue.
1	I	I	PRON	PRP	Case=Nom|Number=Sing|Person=1	2	nsubj	_	_
2	have	have	VERB	VBP	Number=Sing|Person=1|Tense=Pres	0	root	_	_
3	no	no	DET	DT	PronType=Neg	4	det	_	_
4	clue	clue	NOUN	NN	Number=Sing	2	obj	_	SpaceAfter=No
5	.	.	PUNCT	.	_	2	punct	_	_";

fn lines(text: &str) -> Vec<String> {
    text.split('\n').map(String::from).collect()
}

fn pairs(ps: &[(Text, Text)]) -> Vec<(String, String)> {
    ps.iter()
        .map(|(k, v)| (k.as_str().to_string(), v.as_str().to_string()))
        .collect()
}

fn deps(ps: &[(usize, Text)]) -> Vec<(usize, String)> {
    ps.iter().map(|(h, r)| (*h, r.as_str().to_string())).collect()
}

fn owned(ps: &[(&str, &str)]) -> Vec<(String, String)> {
    ps.iter().map(|(k, v)| (k.to_string(), v.to_string())).collect()
}

fn parse_ok(text: &str) -> Vec<Vec<Word>> {
    parse_conllu(lines(text)).unwrap()
}

#[test]
fn it_works() {
    let parsed = parse_conllu(lines(TEST_DATA)).unwrap();
    assert_eq!(parsed.len(), 2);
    assert_eq!(parsed[0].len(), 6);
    assert_eq!(parsed[1].len(), 5);
}

#[test]
fn sample_words_are_decoded() {
    let parsed = parse_ok(TEST_DATA);
    let w = &parsed[0][0];
    assert_eq!(w.id, 1);
    assert_eq!(w.form.as_str(), "They");
    assert_eq!(w.lemma.as_str(), "they");
    assert_eq!(w.upos.as_str(), "PRON");
    assert_eq!(w.xpos.as_str(), "PRP");
    assert_eq!(pairs(&w.feats), owned(&[("Case", "Nom"), ("Number", "Plur")]));
    assert_eq!(w.head, 2);
    assert_eq!(w.deprel.as_str(), "nsubj");
    assert_eq!(deps(&w.deps), vec![(2, "nsubj".to_string()), (4, "nsubj".to_string())]);
    assert!(w.misc.is_empty());
    let books = &parsed[0][4];
    assert_eq!(pairs(&books.misc), owned(&[("SpaceAfter", "No")]));
    let last = &parsed[1][4];
    assert_eq!(last.id, 5);
    assert_eq!(last.form.as_str(), ".");
    assert!(last.deps.is_empty());
}

#[test]
fn sentence_count_follows_index_one_lines() {
    let text = "1\ta\ta\tX\tX\t_\t0\troot\t_\t_\n\
                # 1\tcomment\tline\tX\tX\t_\t0\troot\t_\t_\n\
                1\tb\tb\tX\tX\t_\t0\troot\t_\t_\n\
                2\tc\tc\tX\tX\t_\t1\tdep\t_\t_\n\
                1\td\td\tX\tX\t_\t0\troot\t_\t_";
    let parsed = parse_ok(text);
    assert_eq!(parsed.len(), 3);
    let lens: Vec<usize> = parsed.iter().map(|s| s.len()).collect();
    assert_eq!(lens, vec![1, 2, 1]);
}

#[test]
fn empty_input_gives_no_sentences() {
    assert!(parse_ok("").is_empty());
    assert!(parse_conllu(Vec::new()).unwrap().is_empty());
}

#[test]
fn short_line_is_left_out() {
    let text = "1\ta\ta\tX\tX\t_\t0\troot\t_\t_\n\
                2\tb\tb\tX\tX\t_\t1\n\
                2\tc\tc\tX\tX\t_\t1\tdep\t_\t_";
    let parsed = parse_ok(text);
    assert_eq!(parsed.len(), 1);
    assert_eq!(parsed[0].len(), 2);
    assert_eq!(parsed[0][1].form.as_str(), "c");
}

#[test]
fn eight_field_line_is_excluded() {
    let parsed = parse_ok("1\ta\ta\tX\tX\t_\t0\troot");
    assert!(parsed.is_empty());
}

#[test]
fn extra_columns_are_ignored() {
    let parsed = parse_ok("1\ta\ta\tX\tX\t_\t0\troot\t_\tk=v\textra");
    assert_eq!(parsed[0].len(), 1);
    assert_eq!(pairs(&parsed[0][0].misc), owned(&[("k", "v")]));
}

#[test]
fn features_decode_in_order() {
    let r = parse_attrs("Case=Nom|Number=Plur", '=');
    assert_eq!(pairs(&r), owned(&[("Case", "Nom"), ("Number", "Plur")]));
}

#[test]
fn enhanced_deps_decode_in_order() {
    let r = parse_deps("2:nsubj|4:nsubj").unwrap();
    assert_eq!(deps(&r), vec![(2, "nsubj".to_string()), (4, "nsubj".to_string())]);
}

#[test]
fn placeholder_gives_no_pairs() {
    assert!(parse_attrs("_", '=').is_empty());
    assert!(parse_attrs("_", ':').is_empty());
    assert!(parse_attrs("_", '_').is_empty());
    assert!(parse_deps("_").unwrap().is_empty());
}

#[test]
fn duplicate_pairs_are_kept_in_order() {
    let r = parse_attrs("b=2|a=1|b=2|a=3", '=');
    assert_eq!(pairs(&r), owned(&[("b", "2"), ("a", "1"), ("b", "2"), ("a", "3")]));
}

#[test]
fn malformed_items_are_skipped() {
    let r = parse_attrs("a=1|bad|c=2|d=e=f||=", '=');
    assert_eq!(pairs(&r), owned(&[("a", "1"), ("c", "2"), ("", "")]));
    let d = parse_deps("1:x|nohead|2:y:z|3:w").unwrap();
    assert_eq!(deps(&d), vec![(1, "x".to_string()), (3, "w".to_string())]);
}

#[test]
fn non_numeric_head_is_zero() {
    assert_eq!(parse_head("_"), 0);
    assert_eq!(parse_head("x1"), 0);
    assert_eq!(parse_head(""), 0);
    assert_eq!(parse_head("-3"), 0);
    assert_eq!(parse_head("+"), 0);
    assert_eq!(parse_head("99999999999999999999999"), 0);
    assert_eq!(parse_head("17"), 17);
    assert_eq!(parse_head("+7"), 7);
    let parsed = parse_ok("1\ta\ta\tX\tX\t_\t_\troot\t_\t_");
    assert_eq!(parsed[0][0].head, 0);
}

#[test]
fn bad_index_is_an_error() {
    let text = "1\ta\ta\tX\tX\t_\t0\troot\t_\t_\n\
                x\tb\tb\tX\tX\t_\t1\tdep\t_\t_";
    assert_eq!(parse_conllu(lines(text)).unwrap_err(), ConlluError::BadIndex { line: 1 });
}

#[test]
fn word_before_any_sentence_is_an_error() {
    let text = "# c\n2\tb\tb\tX\tX\t_\t1\tdep\t_\t_";
    assert_eq!(parse_conllu(lines(text)).unwrap_err(), ConlluError::OrphanWord { line: 1 });
}

#[test]
fn bad_dependency_head_is_an_error() {
    assert!(parse_deps("2:nsubj|x:obj").is_none());
    let text = "1\ta\ta\tX\tX\t_\t0\troot\tx:obj\t_";
    assert_eq!(parse_conllu(lines(text)).unwrap_err(), ConlluError::BadDepHead { line: 0 });
}

#[test]
fn text_clone_keeps_content() {
    let parsed = parse_ok(TEST_DATA);
    let w = parsed[1][3].clone();
    assert_eq!(w.form.as_str(), "clue");
    assert_eq!(w.form.clone().as_str(), "clue");
}

#[test]
fn lines_can_be_taken_one_at_a_time() {
    let mut doc: Vec<Vec<Word>> = Vec::new();
    for (i, line) in TEST_DATA.split('\n').enumerate() {
        assert!(line.len() <= MAX_TEXT_CHARS);
        push_line(&mut doc, line, i).unwrap();
    }
    let lens: Vec<usize> = doc.iter().map(|s| s.len()).collect();
    assert_eq!(lens, vec![6, 5]);
    assert_eq!(doc[1][3].form.as_str(), "clue");
}

#[test]
fn failed_line_leaves_document_unchanged() {
    let mut doc: Vec<Vec<Word>> = Vec::new();
    push_line(&mut doc, "1\ta\ta\tX\tX\t_\t0\troot\t_\t_", 0).unwrap();
    let r = push_line(&mut doc, "2\tb\tb\tX\tX\t_\t1\tdep\tq:x\t_", 1);
    assert_eq!(r, Err(ConlluError::BadDepHead { line: 1 }));
    assert_eq!(doc.len(), 1);
    assert_eq!(doc[0].len(), 1);
    let mut empty: Vec<Vec<Word>> = Vec::new();
    let r = push_line(&mut empty, "3\tb\tb\tX\tX\t_\t1\tdep\t_\t_", 7);
    assert_eq!(r, Err(ConlluError::OrphanWord { line: 7 }));
    assert!(empty.is_empty());
    assert_eq!(push_line(&mut empty, "# comment", 8), Ok(()));
    assert!(empty.is_empty());
}

#[test]
fn malformed_dependency_items_leave_siblings() {
    let with_bad = parse_deps("1:a|bad|2:b").unwrap();
    let without = parse_deps("1:a|2:b").unwrap();
    assert_eq!(deps(&with_bad), deps(&without));
    assert_eq!(deps(&with_bad), vec![(1, "a".to_string()), (2, "b".to_string())]);
}
