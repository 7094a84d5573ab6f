//! Content matching: regular expressions evaluated over raw response bytes.

use vstd::prelude::*;
use vstd::slice::slice_subrange;
use vstd::string::{StrSliceExecFns, StringExecFns};

verus! {

#[verifier::external_type_specification]
#[verifier::external_body]
pub struct ExRegex(regex::bytes::Regex);

#[verifier::external_type_specification]
#[verifier::external_body]
pub struct ExRegexError(regex::Error);

/// Whether the regex compiler accepts `pattern`.
pub uninterp spec fn compiles(pattern: Seq<char>) -> bool;

/// The leftmost-first match of `pattern` in `haystack`, as byte offsets: the
/// whole match, then the first capture group where it took part.
pub uninterp spec fn captures_of(pattern: Seq<char>, haystack: Seq<u8>) -> Option<
    (usize, usize, Option<(usize, usize)>),
>;

/// The text decoded from `bytes`, each invalid sequence replaced.
pub uninterp spec fn lossy_text(bytes: Seq<u8>) -> Seq<char>;

/// Relies on regex::bytes::Regex::new: it succeeds exactly on the patterns
/// that compile.
#[verifier::external_body]
fn compile(pattern: &str) -> (r: Result<regex::bytes::Regex, regex::Error>)
    ensures
        r is Ok <==> compiles(pattern@),
{
    regex::bytes::Regex::new(pattern)
}

/// Relies on String::from_utf8_lossy: the decoded text depends on the bytes
/// alone.
#[verifier::external_body]
fn decode_lossy(bytes: &[u8]) -> (r: String)
    ensures
        r@ == lossy_text(bytes@),
{
    String::from_utf8_lossy(bytes).into_owned()
}

/// A compiled pattern, kept with its source text.
pub struct Matcher {
    pattern: String,
    regex: regex::bytes::Regex,
}

/// A pattern that does not compile.
#[derive(Debug)]
pub struct PatternError {
    pub pattern: String,
}

impl View for Matcher {
    type V = Seq<char>;

    closed spec fn view(&self) -> Seq<char> {
        self.pattern@
    }
}

/// Relies on regex::bytes::Regex::captures with Captures::get_match and
/// Captures::get(1): the offsets of the first match, which lie in the
/// haystack with start before end. `m.regex` was compiled from `m.pattern`.
#[verifier::external_body]
fn find_captures(m: &Matcher, body: &[u8]) -> (r: Option<(usize, usize, Option<(usize, usize)>)>)
    ensures
        r == captures_of(m@, body@),
        r matches Some((s, e, _)) ==> s <= e <= body@.len(),
        r matches Some((_, _, Some((a, b)))) ==> a <= b <= body@.len(),
{
    match m.regex.captures(body) {
        None => None,
        Some(c) => {
            let whole = c.get_match();
            let group = match c.get(1) {
                Some(g) => Some((g.start(), g.end())),
                None => None,
            };
            Some((whole.start(), whole.end(), group))
        },
    }
}

/// The bytes that a match contributes: its first capture group where that
/// took part, the whole match otherwise.
pub open spec fn extracted_bytes(body: Seq<u8>, spans: (usize, usize, Option<(usize, usize)>)) -> Seq<u8> {
    match spans.2 {
        Some((a, b)) => body.subrange(a as int, b as int),
        None => body.subrange(spans.0 as int, spans.1 as int),
    }
}

/// What `pattern` extracts from `body`, if it matches.
pub open spec fn extraction(pattern: Seq<char>, body: Seq<u8>) -> Option<Seq<char>> {
    match captures_of(pattern, body) {
        None => None,
        Some(spans) => Some(lossy_text(extracted_bytes(body, spans))),
    }
}

/// The texts extracted by each matching pattern, in pattern order.
pub open spec fn extractions(patterns: Seq<Seq<char>>, body: Seq<u8>) -> Seq<Seq<char>>
    decreases patterns.len(),
{
    if patterns.len() == 0 {
        seq![]
    } else {
        let prev = extractions(patterns.drop_last(), body);
        match extraction(patterns.last(), body) {
            Some(t) => prev.push(t),
            None => prev,
        }
    }
}

pub open spec fn patterns_of(ms: Seq<Matcher>) -> Seq<Seq<char>> {
    ms.map_values(|m: Matcher| m@)
}

pub open spec fn texts(v: Seq<String>) -> Seq<Seq<char>> {
    v.map_values(|s: String| s@)
}

/// The result of evaluating a set of matchers over one body.
#[derive(Debug)]
pub enum Evaluation {
    /// No matcher is configured: any response counts.
    NotApplicable,
    /// Matchers are configured and none extracted anything.
    NoMatch,
    /// The texts extracted, one per matching pattern, in pattern order.
    Matched(Vec<String>),
}

impl Matcher {
    /// Compiles `pattern`.
    pub fn new(pattern: String) -> (r: Result<Matcher, PatternError>)
        ensures
            r is Ok <==> compiles(pattern@),
            r matches Ok(m) ==> m@ == pattern@,
            r matches Err(e) ==> e.pattern@ == pattern@,
    {
        match compile(pattern.as_str()) {
            Ok(regex) => Ok(Matcher { pattern, regex }),
            Err(_) => Err(PatternError { pattern }),
        }
    }

    /// The source text of the pattern.
    pub fn pattern(&self) -> (r: &str)
        ensures
            r@ == self@,
    {
        self.pattern.as_str()
    }

    /// The text this pattern extracts from `body`: its first capture group
    /// where the match has one, else the whole match.
    pub fn extract(&self, body: &[u8]) -> (r: Option<String>)
        ensures
            r is None <==> captures_of(self@, body@) is None,
            r matches Some(t) ==> Some(t@) == extraction(self@, body@),
            captures_of(self@, body@) matches Some((_, _, Some((a, b)))) ==> (r matches Some(t)
                && t@ == lossy_text(body@.subrange(a as int, b as int))),
            captures_of(self@, body@) matches Some((s, e, None)) ==> (r matches Some(t)
                && t@ == lossy_text(body@.subrange(s as int, e as int))),
    {
        match find_captures(self, body) {
            None => None,
            Some((s, e, group)) => {
                let bytes = match group {
                    Some((a, b)) => slice_subrange(body, a, b),
                    None => slice_subrange(body, s, e),
                };
                Some(decode_lossy(bytes))
            },
        }
    }
}

/// Compiles every pattern in order, stopping at the first that does not
/// compile.
pub fn compile_all(patterns: Vec<String>) -> (r: Result<Vec<Matcher>, PatternError>)
    ensures
        r is Ok <==> forall|i: int| 0 <= i < patterns@.len() ==> compiles(#[trigger] patterns@[i]@),
        r matches Ok(ms) ==> patterns_of(ms@) == texts(patterns@),
        r matches Err(e) ==> exists|i: int|
            0 <= i < patterns@.len() && !compiles(patterns@[i]@) && e.pattern@ == patterns@[i]@
                && forall|j: int| 0 <= j < i ==> compiles(#[trigger] patterns@[j]@),
{
    let mut out: Vec<Matcher> = Vec::new();
    let mut i: usize = 0;
    while i < patterns.len()
        invariant
            i <= patterns@.len(),
            forall|j: int| 0 <= j < i ==> compiles(#[trigger] patterns@[j]@),
            out@.len() == i,
            patterns_of(out@) == texts(patterns@.take(i as int)),
        decreases patterns@.len() - i,
    {
        let p = patterns[i].clone();
        let ghost old_out = out@;
        match Matcher::new(p) {
            Ok(m) => {
                out.push(m);
                proof {
                    assert(out@.last()@ == patterns@[i as int]@);
                    assert forall|k: int| 0 <= k < i + 1 implies patterns_of(out@)[k]
                        == texts(patterns@.take(i + 1))[k] by {
                        if k < i {
                            assert(out@[k] == old_out[k]);
                            assert(patterns_of(old_out)[k] == texts(patterns@.take(i as int))[k]);
                        }
                    }
                    assert(patterns_of(out@) =~= texts(patterns@.take(i + 1)));
                }
            },
            Err(e) => {
                return Err(e);
            },
        }
        i = i + 1;
    }
    assert(patterns@.take(i as int) =~= patterns@);
    Ok(out)
}

/// Evaluates `matchers` in order over `body`; every matching pattern
/// contributes its extraction.
pub fn evaluate(body: &[u8], matchers: &Vec<Matcher>) -> (r: Evaluation)
    ensures
        matchers@.len() == 0 ==> r is NotApplicable,
        matchers@.len() > 0 && extractions(patterns_of(matchers@), body@).len() == 0 ==> r is NoMatch,
        matchers@.len() > 0 && extractions(patterns_of(matchers@), body@).len() > 0 ==> (r matches Evaluation::Matched(v)
            && texts(v@) == extractions(patterns_of(matchers@), body@)),
{
    if matchers.len() == 0 {
        return Evaluation::NotApplicable;
    }
    let mut out: Vec<String> = Vec::new();
    let mut i: usize = 0;
    while i < matchers.len()
        invariant
            i <= matchers@.len(),
            texts(out@) == extractions(patterns_of(matchers@).take(i as int), body@),
        decreases matchers@.len() - i,
    {
        let found = matchers[i].extract(body);
        proof {
            let ps = patterns_of(matchers@);
            assert(ps.take(i + 1).drop_last() =~= ps.take(i as int));
            assert(ps.take(i + 1).last() == matchers@[i as int]@);
        }
        match found {
            Some(t) => {
                out.push(t);
                assert(texts(out@) =~= extractions(patterns_of(matchers@).take(i + 1), body@));
            },
            None => {},
        }
        i = i + 1;
    }
    assert(patterns_of(matchers@).take(i as int) =~= patterns_of(matchers@));
    if out.len() == 0 {
        Evaluation::NoMatch
    } else {
        Evaluation::Matched(out)
    }
}

/// Where no pattern matches the body, nothing is extracted.
pub proof fn lemma_no_match_extracts_nothing(patterns: Seq<Seq<char>>, body: Seq<u8>)
    requires
        forall|i: int| 0 <= i < patterns.len() ==> captures_of(#[trigger] patterns[i], body) is None,
    ensures
        extractions(patterns, body) == Seq::<Seq<char>>::empty(),
    decreases patterns.len(),
{
    if patterns.len() > 0 {
        let init = patterns.drop_last();
        assert forall|i: int| 0 <= i < init.len() implies captures_of(#[trigger] init[i], body) is None by {
            assert(init[i] == patterns[i]);
        }
        lemma_no_match_extracts_nothing(init, body);
        assert(captures_of(patterns[patterns.len() - 1], body) is None);
    }
}

/// The pieces of `text` between newline characters, in order; a text
/// without any newline is one piece.
pub open spec fn split_lines(text: Seq<char>) -> Seq<Seq<char>>
    decreases text.len(),
{
    if text.len() == 0 {
        seq![Seq::<char>::empty()]
    } else {
        let prev = split_lines(text.drop_last());
        if text.last() == '\n' {
            prev.push(Seq::<char>::empty())
        } else {
            prev.update(prev.len() - 1, prev.last().push(text.last()))
        }
    }
}

/// `lines` without its empty entries, order kept.
pub open spec fn drop_empty(lines: Seq<Seq<char>>) -> Seq<Seq<char>>
    decreases lines.len(),
{
    if lines.len() == 0 {
        seq![]
    } else {
        let prev = drop_empty(lines.drop_last());
        if lines.last().len() > 0 {
            prev.push(lines.last())
        } else {
            prev
        }
    }
}

/// The patterns listed in `text`: one per non-empty line.
pub fn pattern_lines(text: &str) -> (r: Vec<String>)
    ensures
        texts(r@) == drop_empty(split_lines(text@)),
{
    let n = text.unicode_len();
    let mut out: Vec<String> = Vec::new();
    let mut start: usize = 0;
    let mut i: usize = 0;
    let ghost mut done: Seq<Seq<char>> = seq![];
    assert(text@.take(0) =~= Seq::<char>::empty());
    assert(text@.subrange(0, 0) =~= Seq::<char>::empty());
    while i < n
        invariant
            n == text@.len(),
            start <= i <= n,
            split_lines(text@.take(i as int)) == done.push(text@.subrange(start as int, i as int)),
            texts(out@) == drop_empty(done),
        decreases n - i,
    {
        let c = text.get_char(i);
        let ghost piece = text@.subrange(start as int, i as int);
        assert(text@.take(i + 1).drop_last() =~= text@.take(i as int));
        assert(text@.take(i + 1).last() == c);
        if c == '\n' {
            if start < i {
                let line = String::from_str(text.substring_char(start, i));
                let ghost before = out@;
                out.push(line);
                assert(texts(out@) =~= texts(before).push(piece));
            }
            proof {
                assert(done.push(piece).drop_last() =~= done);
                done = done.push(piece);
                assert(text@.subrange(i + 1, i + 1) =~= Seq::<char>::empty());
            }
            start = i + 1;
        } else {
            assert(text@.subrange(start as int, i + 1) =~= piece.push(c));
            assert(done.push(piece).update(done.len() as int, piece.push(c)) =~= done.push(
                piece.push(c),
            ));
        }
        i = i + 1;
    }
    assert(text@.take(n as int) =~= text@);
    let ghost piece = text@.subrange(start as int, n as int);
    assert(done.push(piece).drop_last() =~= done);
    if start < n {
        let line = String::from_str(text.substring_char(start, n));
        let ghost before = out@;
        out.push(line);
        assert(texts(out@) =~= texts(before).push(piece));
    }
    out
}

} // verus!
