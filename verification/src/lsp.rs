use vstd::prelude::*;
use vstd::string::StringSliceAdditionalSpecFns;
use vstd::utf8::encode_utf8;

use crate::matcher::{
    find_ranges, lemma_word_spans_complete, range_of_span, views, whole_word_at, word_spans, Range,
};

verus! {

/// How serious a diagnostic is, as the Language Server Protocol grades it.
#[derive(Clone, Copy, Debug, PartialEq, Eq, Structural)]
pub enum DiagnosticSeverity {
    Error,
    Warning,
    Information,
    Hint,
}

/// A diagnostic as the Language Server Protocol publishes it: an underlined range with
/// a severity, the name of its source and a message.
#[derive(Debug)]
pub struct Diagnostic {
    pub range: Range,
    pub severity: Option<DiagnosticSeverity>,
    pub source: Option<String>,
    pub message: String,
}

/// The name under which marks are published.
pub open spec fn source_name() -> Seq<char> {
    "text-marker"@
}

/// The message of a mark on `word`.
pub open spec fn mark_message(word: Seq<char>) -> Seq<char> {
    "marked: "@ + word
}

/// The marks that `words` make in `text`, word after word: each is a word and the byte span
/// of one of its whole-word occurrences, in order of occurrence.
pub open spec fn marked_spans(text: Seq<char>, words: Seq<Seq<char>>) -> Seq<(Seq<char>, (int, int))>
    decreases words.len(),
{
    if words.len() == 0 {
        Seq::empty()
    } else {
        let w = words.last();
        marked_spans(text, words.drop_last()) + word_spans(text, seq![w]).map_values(
            |span: (int, int)| (w, span),
        )
    }
}

/// `d` is the diagnostic of the mark `mark` (a word and a span of it) in `text`: an error
/// from `text-marker` over the span, whose message names the word.
pub open spec fn is_mark_diagnostic(text: Seq<char>, mark: (Seq<char>, (int, int)), d: Diagnostic) -> bool {
    &&& range_of_span(text, mark.1, d.range)
    &&& d.severity == Some(DiagnosticSeverity::Error)
    &&& d.source matches Some(s) && s@ == source_name()
    &&& d.message@ == mark_message(mark.0)
}

/// `diags` are the diagnostics of the marks that `words` make in `text`, in the order of
/// [`marked_spans`].
pub open spec fn are_mark_diagnostics(
    text: Seq<char>,
    words: Seq<Seq<char>>,
    diags: Seq<Diagnostic>,
) -> bool {
    &&& diags.len() == marked_spans(text, words).len()
    &&& forall|i: int|
        #![trigger diags[i]]
        0 <= i < diags.len() ==> is_mark_diagnostic(text, marked_spans(text, words)[i], diags[i])
}

/// Every whole-word occurrence of a marked word is marked: among the marks of `words` in
/// `text` is that word with the byte span of the occurrence.
pub proof fn lemma_every_occurrence_is_marked(text: Seq<char>, words: Seq<Seq<char>>, k: int, s: int)
    requires
        0 <= k < words.len(),
        whole_word_at(encode_utf8(text), encode_utf8(words[k]), s),
    ensures
        marked_spans(text, words).contains((words[k], (s, s + encode_utf8(words[k]).len()))),
    decreases words.len(),
{
    let mark = (words[k], (s, s + encode_utf8(words[k]).len()));
    let rest = words.drop_last();
    let before = marked_spans(text, rest);
    let all = marked_spans(text, words);
    if k < words.len() - 1 {
        assert(rest[k] == words[k]);
        lemma_every_occurrence_is_marked(text, rest, k, s);
        let i = choose|i: int| 0 <= i < before.len() && before[i] == mark;
        assert(all[i] == before[i]);
    } else {
        let w = words.last();
        assert(seq![w][0] == w);
        lemma_word_spans_complete(text, seq![w], s, 0);
        let spans = word_spans(text, seq![w]);
        let j = choose|j: int| 0 <= j < spans.len() && spans[j] == (s, s + encode_utf8(w).len());
        assert(all[before.len() + j] == mark);
    }
}

/// The diagnostics of the marks of `words` in `text` are determined by the text and the
/// words: any two lists of them agree in length, and item by item in range, severity, source
/// and message.
pub proof fn lemma_mark_diagnostics_determined(
    text: Seq<char>,
    words: Seq<Seq<char>>,
    d1: Seq<Diagnostic>,
    d2: Seq<Diagnostic>,
)
    requires
        are_mark_diagnostics(text, words, d1),
        are_mark_diagnostics(text, words, d2),
    ensures
        d1.len() == d2.len(),
        forall|i: int|
            #![trigger d1[i], d2[i]]
            0 <= i < d1.len() ==> {
                &&& d1[i].range == d2[i].range
                &&& d1[i].severity == d2[i].severity
                &&& d1[i].source matches Some(s1) && d2[i].source matches Some(s2) && s1@ == s2@
                &&& d1[i].message@ == d2[i].message@
            },
{
    assert forall|i: int| #![trigger d1[i], d2[i]] 0 <= i < d1.len() implies {
        &&& d1[i].range == d2[i].range
        &&& d1[i].severity == d2[i].severity
        &&& d1[i].source matches Some(s1) && d2[i].source matches Some(s2) && s1@ == s2@
        &&& d1[i].message@ == d2[i].message@
    } by {
        let r1 = d1[i].range;
        let r2 = d2[i].range;
        assert(r1.start@ == r2.start@ && r1.end@ == r2.end@);
        assert(r1.start.line == r2.start.line && r1.start.character == r2.start.character);
        assert(r1.end.line == r2.end.line && r1.end.character == r2.end.character);
    }
}

/// Marks are published as errors of `text-marker`, whatever the words and the text: every
/// diagnostic of the marks has severity `Error`, source `text-marker`, and the message
/// `marked: ` followed by one of the words.
pub proof fn lemma_marks_are_errors(text: Seq<char>, words: Seq<Seq<char>>, diags: Seq<Diagnostic>)
    requires
        are_mark_diagnostics(text, words, diags),
    ensures
        forall|i: int|
            #![trigger diags[i]]
            0 <= i < diags.len() ==> {
                &&& diags[i].severity == Some(DiagnosticSeverity::Error)
                &&& diags[i].source matches Some(s) && s@ == "text-marker"@
                &&& exists|k: int| 0 <= k < words.len() && diags[i].message@ == "marked: "@ + #[trigger] words[k]
            },
{
    lemma_marked_words(text, words);
    assert forall|i: int| #![trigger diags[i]] 0 <= i < diags.len() implies {
        &&& diags[i].severity == Some(DiagnosticSeverity::Error)
        &&& diags[i].source matches Some(s) && s@ == "text-marker"@
        &&& exists|k: int| 0 <= k < words.len() && diags[i].message@ == "marked: "@ + #[trigger] words[k]
    } by {
        let m = marked_spans(text, words)[i];
        assert(is_mark_diagnostic(text, m, diags[i]));
        let k = choose|k: int| 0 <= k < words.len() && m.0 == #[trigger] words[k];
    }
}

/// The word of every mark is one of the words.
proof fn lemma_marked_words(text: Seq<char>, words: Seq<Seq<char>>)
    ensures
        forall|i: int|
            0 <= i < marked_spans(text, words).len() ==> exists|k: int|
                0 <= k < words.len() && (#[trigger] marked_spans(text, words)[i]).0 == #[trigger] words[k],
    decreases words.len(),
{
    if words.len() > 0 {
        let rest = words.drop_last();
        lemma_marked_words(text, rest);
        let w = words.last();
        let before = marked_spans(text, rest);
        let all = marked_spans(text, words);
        let spans = word_spans(text, seq![w]);
        assert forall|i: int| 0 <= i < all.len() implies exists|k: int|
            0 <= k < words.len() && (#[trigger] all[i]).0 == #[trigger] words[k] by {
            if i < before.len() {
                assert(all[i] == before[i]);
                let k = choose|k: int| 0 <= k < rest.len() && before[i].0 == #[trigger] rest[k];
                assert(words[k] == rest[k]);
            } else {
                assert(all[i] == (w, spans[i - before.len()]));
                assert(words[words.len() - 1] == w);
            }
        }
    }
}

/// The diagnostics that the marked `words` give `text`: for each word in turn, one error
/// per whole-word occurrence, in order of occurrence.
pub fn diagnostics_for(text: &str, words: &[String]) -> (diags: Vec<Diagnostic>)
    requires
        text.spec_bytes().len() <= u32::MAX,
    ensures
        are_mark_diagnostics(text@, views(words@), diags@),
        forall|i: int|
            #![trigger diags[i]]
            0 <= i < diags.len() ==> {
                &&& diags[i].severity == Some(DiagnosticSeverity::Error)
                &&& diags[i].source matches Some(s) && s@ == "text-marker"@
                &&& exists|k: int|
                    0 <= k < words.len() && diags[i].message@ == "marked: "@ + (#[trigger] words[k])@
            },
{
    let ghost ws = views(words@);
    let mut diags: Vec<Diagnostic> = Vec::new();
    for k in 0..words.len()
        invariant
            text.spec_bytes().len() <= u32::MAX,
            ws == views(words@),
            ws.len() == words.len(),
            are_mark_diagnostics(text@, ws.take(k as int), diags@),
    {
        let ghost before = diags@;
        let ghost pre = ws.take(k as int);
        let ghost cur = ws.take(k + 1);
        assert(cur.drop_last() =~= pre);
        assert(cur.last() == ws[k as int]);
        let word = words[k].clone();
        let single = vec![word];
        assert(views(single@) =~= seq![cur.last()]);
        let ranges = find_ranges(text, single.as_slice());
        let ghost spans = word_spans(text@, seq![cur.last()]);
        assert(marked_spans(text@, cur) == marked_spans(text@, pre) + spans.map_values(
            |span: (int, int)| (cur.last(), span),
        ));
        for j in 0..ranges.len()
            invariant
                ranges.len() == spans.len(),
                forall|i: int| #![trigger ranges[i]] 0 <= i < ranges.len() ==> range_of_span(text@, spans[i], ranges[i]),
                k < words.len(),
                cur.last() == words@[k as int]@,
                diags.len() == before.len() + j,
                forall|i: int| #![trigger diags[i]] 0 <= i < before.len() ==> diags[i] == before[i],
                forall|i: int|
                    #![trigger diags[i]]
                    before.len() <= i < diags.len() ==> is_mark_diagnostic(
                        text@,
                        (cur.last(), spans[i - before.len()]),
                        diags[i],
                    ),
        {
            let mut message = String::from_str("marked: ");
            message.append(words[k].as_str());
            let d = Diagnostic {
                range: ranges[j],
                severity: Some(DiagnosticSeverity::Error),
                source: Some(String::from_str("text-marker")),
                message,
            };
            let ghost b2 = diags@;
            diags.push(d);
            assert forall|i: int| #![trigger diags[i]] 0 <= i < b2.len() implies diags[i] == b2[i] by {}
        }
        assert forall|i: int|
            #![trigger diags[i]]
            0 <= i < diags.len() implies is_mark_diagnostic(
                text@,
                marked_spans(text@, cur)[i],
                diags[i],
            ) by {
            if i < before.len() {
                assert(is_mark_diagnostic(text@, marked_spans(text@, pre)[i], before[i]));
                assert(marked_spans(text@, cur)[i] == marked_spans(text@, pre)[i]);
            } else {
                assert(marked_spans(text@, cur)[i] == (cur.last(), spans[i - before.len()]));
            }
        }
    }
    assert(ws.take(words.len() as int) =~= ws);
    proof {
        lemma_marks_are_errors(text@, ws, diags@);
        assert forall|i: int| #![trigger diags[i]] 0 <= i < diags.len() implies exists|k: int|
            0 <= k < words.len() && diags[i].message@ == "marked: "@ + (#[trigger] words[k])@ by {
            let k = choose|k: int| 0 <= k < ws.len() && diags[i].message@ == "marked: "@ + #[trigger] ws[k];
            assert(ws[k] == words[k]@);
        }
    }
    diags
}


/// The open documents of a workspace, as (uri, text) pairs.
pub type Documents = Seq<(Seq<char>, Seq<char>)>;

/// The index of the document `uri` among `docs` (the last one, should there be several);
/// -1 when it is not open.
pub open spec fn doc_index(docs: Documents, uri: Seq<char>) -> int
    decreases docs.len(),
{
    if docs.len() == 0 {
        -1
    } else if docs.last().0 == uri {
        docs.len() - 1
    } else {
        doc_index(docs.drop_last(), uri)
    }
}

/// The text of the open document `uri`, if it is open.
pub open spec fn text_of(docs: Documents, uri: Seq<char>) -> Option<Seq<char>> {
    let i = doc_index(docs, uri);
    if i < 0 {
        None
    } else {
        Some(docs[i].1)
    }
}

/// `docs` with the document `uri` holding `text`: replaced where it is open, added at the
/// end where it is not.
pub open spec fn with_text(docs: Documents, uri: Seq<char>, text: Seq<char>) -> Documents {
    let i = doc_index(docs, uri);
    if i < 0 {
        docs.push((uri, text))
    } else {
        docs.update(i, (uri, text))
    }
}

/// `docs` without the document `uri`.
pub open spec fn without(docs: Documents, uri: Seq<char>) -> Documents {
    let i = doc_index(docs, uri);
    if i < 0 {
        docs
    } else {
        docs.remove(i)
    }
}

/// No document is open twice.
pub open spec fn uris_distinct(docs: Documents) -> bool {
    forall|i: int, j: int| 0 <= i < j < docs.len() ==> docs[i].0 != docs[j].0
}

/// Every document is short enough that its positions fit in `u32`.
pub open spec fn texts_fit(docs: Documents) -> bool {
    forall|i: int| 0 <= i < docs.len() ==> fits(#[trigger] docs[i].1)
}

/// The UTF-8 encoding of `text` is at most `u32::MAX` bytes long.
pub open spec fn fits(text: Seq<char>) -> bool {
    encode_utf8(text).len() <= u32::MAX
}

proof fn lemma_doc_index(docs: Documents, uri: Seq<char>)
    ensures
        -1 <= doc_index(docs, uri) < docs.len(),
        doc_index(docs, uri) >= 0 ==> docs[doc_index(docs, uri)].0 == uri,
        doc_index(docs, uri) < 0 ==> forall|j: int| 0 <= j < docs.len() ==> docs[j].0 != uri,
        forall|j: int| doc_index(docs, uri) < j < docs.len() ==> docs[j].0 != uri,
    decreases docs.len(),
{
    if docs.len() > 0 {
        let rest = docs.drop_last();
        lemma_doc_index(rest, uri);
        assert forall|j: int| 0 <= j < rest.len() implies #[trigger] docs[j] == rest[j] by {}
    }
}

/// Once `uri` holds `text`, reading `uri` gives `text`, and reading any other document gives
/// what it gave before.
pub proof fn lemma_read_after_write(docs: Documents, uri: Seq<char>, text: Seq<char>, other: Seq<char>)
    ensures
        text_of(with_text(docs, uri, text), uri) == Some(text),
        other != uri ==> text_of(with_text(docs, uri, text), other) == text_of(docs, other),
        uris_distinct(docs) ==> uris_distinct(with_text(docs, uri, text)),
{
    let after = with_text(docs, uri, text);
    lemma_doc_index(docs, uri);
    lemma_doc_index(after, uri);
    lemma_doc_index(docs, other);
    lemma_doc_index(after, other);
    let i = doc_index(docs, uri);
    if i < 0 {
        assert(after[docs.len() as int] == (uri, text));
        if other != uri {
            assert(after.drop_last() =~= docs);
        }
    } else {
        if doc_index(after, uri) != i {
            assert(after[i].0 == uri);
        }
        if other != uri {
            let a = doc_index(docs, other);
            let b = doc_index(after, other);
            if a >= 0 {
                assert(after[a].0 == other);
                if b > a {
                    assert(docs[b] == after[b]);
                }
            }
            if b >= 0 {
                assert(docs[b].0 == other);
            }
        }
    }
    if uris_distinct(docs) {
        assert forall|a: int, b: int| 0 <= a < b < after.len() implies after[a].0 != after[b].0 by {
            if i < 0 {
                if b == docs.len() {
                    assert(docs[a].0 != uri);
                } else {
                    assert(after[a] == docs[a] && after[b] == docs[b]);
                }
            } else {
                assert(after[a].0 == docs[a].0 && after[b].0 == docs[b].0);
            }
        }
    }
}

/// Once `uri` is closed, reading it gives nothing, and reading any other document gives what
/// it gave before.
pub proof fn lemma_read_after_close(docs: Documents, uri: Seq<char>, other: Seq<char>)
    requires
        uris_distinct(docs),
    ensures
        text_of(without(docs, uri), uri) is None,
        other != uri ==> text_of(without(docs, uri), other) == text_of(docs, other),
        uris_distinct(without(docs, uri)),
{
    let after = without(docs, uri);
    let i = doc_index(docs, uri);
    lemma_doc_index(docs, uri);
    lemma_doc_index(after, uri);
    lemma_doc_index(docs, other);
    lemma_doc_index(after, other);
    if i >= 0 {
        assert forall|a: int| 0 <= a < after.len() implies #[trigger] after[a] == docs[if a < i {
            a
        } else {
            a + 1
        }] by {}
        if doc_index(after, uri) >= 0 {
            let j = doc_index(after, uri);
            if j < i {
                assert(docs[j].0 == uri);
            } else {
                assert(docs[j + 1].0 == uri);
            }
        }
        if other != uri {
            let a = doc_index(docs, other);
            let b = doc_index(after, other);
            if a >= 0 {
                let a2 = if a < i { a } else { a - 1 };
                assert(after[a2] == docs[a]);
                if b > a2 {
                    let b0 = if b < i { b } else { b + 1 };
                    assert(after[b] == docs[b0]);
                }
            }
            if b >= 0 {
                let b0 = if b < i { b } else { b + 1 };
                assert(after[b] == docs[b0]);
                if a > b0 || a < 0 {
                    assert(docs[b0].0 == other);
                }
                if a < b0 {
                    assert(docs[a].0 == other);
                }
            }
        }
        assert forall|a: int, b: int| 0 <= a < b < after.len() implies after[a].0 != after[b].0 by {
            let a0 = if a < i { a } else { a + 1 };
            let b0 = if b < i { b } else { b + 1 };
            assert(after[a] == docs[a0]);
            assert(after[b] == docs[b0]);
        }
    }
}

/// Opening a document that is not open and closing it again leaves the open documents as
/// they were.
pub proof fn lemma_open_then_close(docs: Documents, uri: Seq<char>, text: Seq<char>)
    requires
        text_of(docs, uri) is None,
    ensures
        without(with_text(docs, uri, text), uri) == docs,
{
    lemma_doc_index(docs, uri);
    let after = with_text(docs, uri, text);
    assert(after == docs.push((uri, text)));
    assert(after.drop_last() =~= docs);
    assert(doc_index(after, uri) == docs.len());
    assert(after.remove(docs.len() as int) =~= docs);
}

/// Diagnostics to publish for the document `uri`.
pub struct Publication {
    pub uri: String,
    pub diagnostics: Vec<Diagnostic>,
}

/// `p` publishes, for the document `uri` whose text is `text`, the diagnostics of `marks`.
pub open spec fn publishes(p: Publication, uri: Seq<char>, text: Seq<char>, marks: Seq<Seq<char>>) -> bool {
    &&& p.uri@ == uri
    &&& are_mark_diagnostics(text, marks, p.diagnostics@)
}

/// What a language server that underlines marks keeps: its open documents and the marked
/// words. Each event it receives changes that state and yields the diagnostics to publish.
pub struct Workspace {
    docs: Vec<(String, String)>,
    marks: Vec<String>,
}

impl Workspace {
    /// The open documents, as (uri, text) pairs, in the order they were first opened.
    pub closed spec fn documents(&self) -> Documents {
        self.docs@.map_values(|d: (String, String)| (d.0@, d.1@))
    }

    /// The marked words.
    pub closed spec fn marks(&self) -> Seq<Seq<char>> {
        views(self.marks@)
    }

    /// No document is open twice, and every document fits the positions' range.
    pub open spec fn wf(&self) -> bool {
        &&& uris_distinct(self.documents())
        &&& texts_fit(self.documents())
    }

    /// A workspace with no open document, marking the words that were loaded, or none when
    /// loading them failed.
    pub fn new(loaded: Option<Vec<String>>) -> (w: Workspace)
        ensures
            w.wf(),
            w.documents() == Documents::empty(),
            w.marks() == match loaded {
                Some(m) => views(m@),
                None => Seq::<Seq<char>>::empty(),
            },
    {
        let marks = match loaded {
            Some(m) => m,
            None => Vec::new(),
        };
        let w = Workspace { docs: Vec::new(), marks };
        assert(w.documents() =~= Documents::empty());
        assert(loaded is None ==> w.marks() =~= Seq::<Seq<char>>::empty());
        w
    }

    /// Where the document `uri` is held, if it is open.
    fn find(&self, uri: &String) -> (r: Option<usize>)
        ensures
            match r {
                Some(i) => i == doc_index(self.documents(), uri@),
                None => doc_index(self.documents(), uri@) < 0,
            },
    {
        let ghost docs = self.documents();
        let mut i = self.docs.len();
        assert(docs.take(i as int) =~= docs);
        while i > 0
            invariant
                docs == self.documents(),
                i <= docs.len(),
                doc_index(docs, uri@) == doc_index(docs.take(i as int), uri@),
            decreases i,
        {
            let ghost pre = docs.take(i as int);
            assert(pre.drop_last() =~= docs.take(i - 1));
            if self.docs[i - 1].0 == *uri {
                return Some(i - 1);
            }
            i = i - 1;
        }
        None
    }

    /// The publication for the document held at `i`.
    fn publication(&self, i: usize) -> (p: Publication)
        requires
            self.wf(),
            i < self.documents().len(),
        ensures
            publishes(p, self.documents()[i as int].0, self.documents()[i as int].1, self.marks()),
    {
        let text = self.docs[i].1.as_str();
        assert(fits(self.documents()[i as int].1));
        let diagnostics = diagnostics_for(text, self.marks.as_slice());
        Publication { uri: self.docs[i].0.clone(), diagnostics }
    }

    /// Holds `text` as the text of the document `uri`, and tells where it is held.
    fn put(&mut self, uri: String, text: String) -> (i: usize)
        requires
            old(self).wf(),
            fits(text@),
        ensures
            final(self).wf(),
            final(self).documents() == with_text(old(self).documents(), uri@, text@),
            final(self).marks() == old(self).marks(),
            i < final(self).documents().len(),
            final(self).documents()[i as int] == (uri@, text@),
    {
        let ghost docs = self.documents();
        proof {
            lemma_doc_index(docs, uri@);
        }
        let found = self.find(&uri);
        match found {
            Some(i) => {
                self.docs.set(i, (uri, text));
                assert(self.documents() =~= docs.update(i as int, (uri@, text@)));
                i
            },
            None => {
                self.docs.push((uri, text));
                assert(self.documents() =~= docs.push((uri@, text@)));
                self.docs.len() - 1
            },
        }
    }

    /// Opens the document `uri` with `text` (replacing its text if it is open already), and
    /// yields its diagnostics.
    pub fn did_open(&mut self, uri: String, text: String) -> (pubs: Vec<Publication>)
        requires
            old(self).wf(),
            fits(text@),
        ensures
            final(self).wf(),
            final(self).documents() == with_text(old(self).documents(), uri@, text@),
            final(self).marks() == old(self).marks(),
            pubs.len() == 1,
            publishes(pubs[0], uri@, text@, old(self).marks()),
    {
        let i = self.put(uri, text);
        let p = self.publication(i);
        vec![p]
    }

    /// Takes the last of the full-text `changes` of the document `uri` as its text (no change
    /// leaves it as it is), and yields its diagnostics if it is open.
    pub fn did_change(&mut self, uri: String, changes: Vec<String>) -> (pubs: Vec<Publication>)
        requires
            old(self).wf(),
            changes.len() > 0 ==> fits(changes@.last()@),
        ensures
            final(self).wf(),
            final(self).documents() == if changes.len() > 0 {
                with_text(old(self).documents(), uri@, changes@.last()@)
            } else {
                old(self).documents()
            },
            final(self).marks() == old(self).marks(),
            match text_of(final(self).documents(), uri@) {
                Some(text) => pubs.len() == 1 && publishes(pubs[0], uri@, text, old(self).marks()),
                None => pubs.len() == 0,
            },
    {
        let mut changes = changes;
        match changes.pop() {
            Some(text) => {
                let i = self.put(uri, text);
                proof {
                    lemma_doc_index(self.documents(), self.documents()[i as int].0);
                }
                let p = self.publication(i);
                vec![p]
            },
            None => {
                match self.find(&uri) {
                    Some(i) => {
                        proof {
                            lemma_doc_index(self.documents(), uri@);
                        }
                        let p = self.publication(i);
                        vec![p]
                    },
                    None => Vec::new(),
                }
            },
        }
    }

    /// Closes the document `uri`, and yields an empty list of diagnostics for it, which
    /// clears its marks.
    pub fn did_close(&mut self, uri: String) -> (pubs: Vec<Publication>)
        requires
            old(self).wf(),
        ensures
            final(self).wf(),
            final(self).documents() == without(old(self).documents(), uri@),
            final(self).marks() == old(self).marks(),
            pubs.len() == 1,
            pubs[0].uri@ == uri@,
            pubs[0].diagnostics.len() == 0,
    {
        let ghost docs = self.documents();
        proof {
            lemma_doc_index(docs, uri@);
        }
        match self.find(&uri) {
            Some(i) => {
                let _ = self.docs.remove(i);
                assert(self.documents() =~= docs.remove(i as int));
                assert(uris_distinct(self.documents())) by {
                    assert forall|a: int, b: int| 0 <= a < b < self.documents().len() implies self.documents()[a].0
                        != self.documents()[b].0 by {
                        let a0 = if a < i { a } else { a + 1 };
                        let b0 = if b < i { b } else { b + 1 };
                        assert(self.documents()[a] == docs[a0]);
                        assert(self.documents()[b] == docs[b0]);
                    }
                }
                assert(texts_fit(self.documents())) by {
                    assert forall|a: int| 0 <= a < self.documents().len() implies fits(#[trigger] self.documents()[a].1) by {
                        let a0 = if a < i { a } else { a + 1 };
                        assert(self.documents()[a] == docs[a0]);
                    }
                }
            },
            None => {},
        }
        vec![Publication { uri, diagnostics: Vec::new() }]
    }

    /// Marks the words that were loaded again (keeping the current ones when loading them
    /// failed), and yields the diagnostics of every open document.
    pub fn reload_marks(&mut self, loaded: Option<Vec<String>>) -> (pubs: Vec<Publication>)
        requires
            old(self).wf(),
        ensures
            final(self).wf(),
            final(self).documents() == old(self).documents(),
            final(self).marks() == match loaded {
                Some(m) => views(m@),
                None => old(self).marks(),
            },
            pubs.len() == final(self).documents().len(),
            forall|i: int|
                #![trigger pubs[i]]
                0 <= i < pubs.len() ==> publishes(
                    pubs[i],
                    final(self).documents()[i].0,
                    final(self).documents()[i].1,
                    final(self).marks(),
                ),
    {
        match loaded {
            Some(m) => {
                self.marks = m;
            },
            None => {},
        }
        let mut pubs: Vec<Publication> = Vec::new();
        for i in 0..self.docs.len()
            invariant
                self.wf(),
                pubs.len() == i,
                forall|j: int|
                    #![trigger pubs[j]]
                    0 <= j < i ==> publishes(
                        pubs[j],
                        self.documents()[j].0,
                        self.documents()[j].1,
                        self.marks(),
                    ),
        {
            let p = self.publication(i);
            pubs.push(p);
        }
        pubs
    }
}

} // verus!