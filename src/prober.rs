//! The per-host probing state machine: candidates are tried in order and the
//! first that settles is the host's result.

use vstd::prelude::*;
use vstd::string::StringExecFns;
use crate::candidates::{get_url_variants, url_variants};
use crate::matcher::{evaluate, extractions, patterns_of, texts, Evaluation, Matcher};

verus! {

/// What one fetch of one candidate URL came to.
#[derive(Debug)]
pub enum ProbeOutcome {
    /// The transport failed: refused, timed out, TLS or DNS failure.
    Unreachable,
    /// A response came, matchers are configured and none extracted anything.
    ReachableNoMatch,
    /// A response came and no matcher is configured.
    Reachable,
    /// A response came and these texts were extracted from its body.
    Matched(Vec<String>),
}

/// Whether an outcome ends the scan of a host.
pub open spec fn settles(o: ProbeOutcome) -> bool {
    o is Reachable || o is Matched
}

/// The texts an outcome carries.
pub open spec fn captured(o: ProbeOutcome) -> Seq<Seq<char>> {
    match o {
        ProbeOutcome::Matched(v) => texts(v@),
        _ => seq![],
    }
}

/// The outcome of one fetch. `response` is the body received, or `None`
/// when the transport failed; with no matcher configured the body is not
/// looked at.
pub fn classify(response: Option<&[u8]>, matchers: &Vec<Matcher>) -> (r: ProbeOutcome)
    ensures
        response is None ==> r is Unreachable,
        response is Some && matchers@.len() == 0 ==> r is Reachable,
        response is Some && matchers@.len() > 0 && extractions(
            patterns_of(matchers@),
            response->0@,
        ).len() == 0 ==> r is ReachableNoMatch,
        response is Some && matchers@.len() > 0 && extractions(
            patterns_of(matchers@),
            response->0@,
        ).len() > 0 ==> (r matches ProbeOutcome::Matched(v) && texts(v@) == extractions(
            patterns_of(matchers@),
            response->0@,
        )),
{
    match response {
        None => ProbeOutcome::Unreachable,
        Some(body) => {
            if matchers.len() == 0 {
                ProbeOutcome::Reachable
            } else {
                match evaluate(body, matchers) {
                    Evaluation::Matched(v) => ProbeOutcome::Matched(v),
                    _ => ProbeOutcome::ReachableNoMatch,
                }
            }
        },
    }
}

/// The result for one host: the URL that settled and what it extracted.
#[derive(Debug)]
pub struct HostResult {
    pub url: String,
    pub captures: Vec<String>,
}

/// `parts` separated by single spaces.
pub open spec fn joined(parts: Seq<Seq<char>>) -> Seq<char>
    decreases parts.len(),
{
    if parts.len() == 0 {
        seq![]
    } else if parts.len() == 1 {
        parts[0]
    } else {
        joined(parts.drop_last()) + seq![' '] + parts.last()
    }
}

/// The output line for a URL and its extracted texts.
pub open spec fn output_line(url: Seq<char>, captures: Seq<Seq<char>>) -> Seq<char> {
    if captures.len() == 0 {
        url
    } else {
        url + seq![' '] + joined(captures)
    }
}

/// The extracted texts, separated by single spaces.
pub fn join_captures(captures: &Vec<String>) -> (r: String)
    ensures
        r@ == joined(texts(captures@)),
{
    let mut out = String::new();
    let mut i: usize = 0;
    assert(texts(captures@).take(0) =~= Seq::<Seq<char>>::empty());
    while i < captures.len()
        invariant
            i <= captures@.len(),
            out@ == joined(texts(captures@).take(i as int)),
        decreases captures@.len() - i,
    {
        let ghost parts = texts(captures@).take(i + 1);
        assert(parts.drop_last() =~= texts(captures@).take(i as int));
        assert(parts.last() == captures@[i as int]@);
        assert(parts.len() == i + 1);
        let ghost before = out@;
        if i > 0 {
            proof {
                reveal_strlit(" ");
                assert(" "@ =~= seq![' ']);
            }
            out.append(" ");
            out.append(captures[i].as_str());
            assert(joined(parts) == joined(parts.drop_last()) + seq![' '] + parts.last());
            assert(out@ =~= before + seq![' '] + parts.last());
        } else {
            assert(before =~= Seq::<char>::empty());
            out.append(captures[i].as_str());
            assert(parts[0] == parts.last());
            assert(out@ =~= parts.last());
        }
        assert(out@ =~= joined(parts));
        i = i + 1;
    }
    assert(texts(captures@).take(i as int) =~= texts(captures@));
    out
}

impl HostResult {
    /// The line emitted for this result: the URL, then the extracted texts.
    pub fn line(&self) -> (r: String)
        ensures
            r@ == output_line(self.url@, texts(self.captures@)),
    {
        proof {
            reveal_strlit(" ");
            assert(" "@ =~= seq![' ']);
        }
        let out = self.url.clone();
        if self.captures.len() == 0 {
            out
        } else {
            let joined = join_captures(&self.captures);
            out.concat(" ").concat(joined.as_str())
        }
    }
}

/// Probes one host: the candidate URLs, how many have been tried, and the
/// result once one settled.
pub struct HostProber {
    candidates: Vec<String>,
    next: usize,
    result: Option<HostResult>,
    history: Ghost<Seq<ProbeOutcome>>,
}

/// The result of a scan that saw `outcomes` for the first candidates of
/// `urls`: the first candidate whose outcome settles, with its texts.
pub open spec fn first_settled(urls: Seq<Seq<char>>, outcomes: Seq<ProbeOutcome>) -> Option<
    (Seq<char>, Seq<Seq<char>>),
>
    decreases outcomes.len(),
{
    if outcomes.len() == 0 {
        None
    } else {
        match first_settled(urls, outcomes.drop_last()) {
            Some(r) => Some(r),
            None => if settles(outcomes.last()) {
                Some((urls[outcomes.len() - 1], captured(outcomes.last())))
            } else {
                None
            },
        }
    }
}

proof fn lemma_nothing_settled(urls: Seq<Seq<char>>, outcomes: Seq<ProbeOutcome>)
    requires
        forall|i: int| 0 <= i < outcomes.len() ==> !settles(#[trigger] outcomes[i]),
    ensures
        first_settled(urls, outcomes) is None,
    decreases outcomes.len(),
{
    if outcomes.len() > 0 {
        let init = outcomes.drop_last();
        assert forall|i: int| 0 <= i < init.len() implies !settles(#[trigger] init[i]) by {
            assert(init[i] == outcomes[i]);
        }
        lemma_nothing_settled(urls, init);
        assert(!settles(outcomes[outcomes.len() - 1]));
    }
}

impl HostProber {
    /// The candidate URLs, in the order they are tried.
    pub closed spec fn urls(&self) -> Seq<Seq<char>> {
        texts(self.candidates@)
    }

    /// How many candidates have been tried.
    pub closed spec fn tried(&self) -> nat {
        self.next as nat
    }

    /// The outcomes recorded so far, one per candidate tried.
    pub closed spec fn outcomes(&self) -> Seq<ProbeOutcome> {
        self.history@
    }

    /// The URL that settled, with its extracted texts.
    pub closed spec fn found(&self) -> Option<(Seq<char>, Seq<Seq<char>>)> {
        match self.result {
            Some(h) => Some((h.url@, texts(h.captures@))),
            None => None,
        }
    }

    pub closed spec fn wf(&self) -> bool {
        &&& self.next <= self.candidates@.len()
        &&& self.history@.len() == self.next
        &&& forall|i: int| 0 <= i < self.next - 1 ==> !settles(#[trigger] self.history@[i])
        &&& self.result is Some <==> self.next > 0 && settles(self.history@[self.next - 1])
        &&& self.found() matches Some((u, c)) ==> u == self.urls()[self.next - 1] && c == captured(
            self.history@[self.next - 1],
        )
    }

    /// No candidate is left to try: one settled, or all were tried.
    pub open spec fn is_done(&self) -> bool {
        self.found() is Some || self.tried() == self.urls().len()
    }

    /// A prober for one input line, before any candidate is tried.
    pub fn new(host: String) -> (r: HostProber)
        ensures
            r.wf(),
            r.urls() == url_variants(host@),
            r.tried() == 0,
            r.outcomes() == Seq::<ProbeOutcome>::empty(),
            r.found() is None,
    {
        let candidates = get_url_variants(host);
        HostProber { candidates, next: 0, result: None, history: Ghost(Seq::empty()) }
    }

    /// The candidate to fetch next, or `None` once the scan is over.
    pub fn next_url(&self) -> (r: Option<String>)
        requires
            self.wf(),
        ensures
            r is None <==> self.is_done(),
            r matches Some(u) ==> u@ == self.urls()[self.tried() as int],
    {
        if self.result.is_some() || self.next >= self.candidates.len() {
            None
        } else {
            Some(self.candidates[self.next].clone())
        }
    }

    /// Records the outcome of fetching the current candidate. An outcome that
    /// settles ends the scan with that candidate; any other moves on to the
    /// next. Once the scan is over nothing changes.
    pub fn record(&mut self, outcome: ProbeOutcome)
        requires
            old(self).wf(),
        ensures
            final(self).wf(),
            final(self).urls() == old(self).urls(),
            old(self).is_done() ==> final(self).tried() == old(self).tried() && final(self).found()
                == old(self).found() && final(self).outcomes() == old(self).outcomes(),
            !old(self).is_done() ==> final(self).tried() == old(self).tried() + 1
                && final(self).outcomes() == old(self).outcomes().push(outcome),
            !old(self).is_done() && settles(outcome) ==> final(self).found() == Some(
                (old(self).urls()[old(self).tried() as int], captured(outcome)),
            ),
            !old(self).is_done() && !settles(outcome) ==> final(self).found() is None,
    {
        if self.result.is_some() || self.next >= self.candidates.len() {
            return;
        }
        let url = self.candidates[self.next].clone();
        let ghost recorded = outcome;
        match outcome {
            ProbeOutcome::Reachable => {
                self.result = Some(HostResult { url, captures: Vec::new() });
                assert(texts(Seq::<String>::empty()) =~= seq![]);
            },
            ProbeOutcome::Matched(v) => {
                self.result = Some(HostResult { url, captures: v });
            },
            _ => {},
        }
        self.history = Ghost(self.history@.push(recorded));
        self.next = self.next + 1;
    }

    /// The host's result: the candidate that settled, if any.
    pub fn finish(self) -> (r: Option<HostResult>)
        ensures
            r matches Some(h) ==> self.found() == Some((h.url@, texts(h.captures@))),
            r is None <==> self.found() is None,
    {
        self.result
    }
}

/// A prober's result is the first candidate whose outcome settled, with the
/// texts of that outcome; no outcome after it is recorded, so a host yields
/// at most one result.
pub proof fn lemma_result_is_first_settled(p: &HostProber)
    requires
        p.wf(),
    ensures
        p.outcomes().len() == p.tried(),
        p.found() == first_settled(p.urls(), p.outcomes()),
        p.found() is Some ==> p.is_done(),
{
    let os = p.outcomes();
    if os.len() > 0 {
        let init = os.drop_last();
        assert forall|i: int| 0 <= i < init.len() implies !settles(#[trigger] init[i]) by {
            assert(init[i] == os[i]);
        }
        lemma_nothing_settled(p.urls(), init);
    }
}

} // verus!
