//! Issues reported against a text, and their normalization into annotations.
use vstd::prelude::*;
use vstd::string::*;

verus! {

/// What a caller configures for one analysis.
pub struct Options {
    /// The text to analyze.
    pub text: String,
    /// Largest number of suggestions kept per issue.
    pub number: u8,
    /// Whether explanation lines are produced.
    pub verbose: bool,
}

/// One issue as the analysis provider reported it; any field may be missing.
pub struct RawIssue {
    pub message: Option<String>,
    /// Offset in scalar values from the start of the text.
    pub offset: Option<i64>,
    /// Length in scalar values.
    pub length: Option<i64>,
    pub candidates: Vec<String>,
}

/// An annotation: the range `[position, position + length)` of `sentence`,
/// counted in scalar values, with ordered suggestions and an explanation.
pub struct GrammarError {
    pub sentence: String,
    pub position: usize,
    pub length: usize,
    pub suggestions: Vec<String>,
    pub explanation: String,
}

/// An annotation as mathematical values: its range, its suggestions, its
/// explanation and the text it refers to.
pub struct AnnotationView {
    pub start: int,
    pub end: int,
    pub suggestions: Seq<Seq<char>>,
    pub explanation: Seq<char>,
    pub sentence: Seq<char>,
}

impl View for GrammarError {
    type V = AnnotationView;

    open spec fn view(&self) -> AnnotationView {
        AnnotationView {
            start: self.position as int,
            end: self.position + self.length,
            suggestions: self.suggestions@.map_values(|s: String| s@),
            explanation: self.explanation@,
            sentence: self.sentence@,
        }
    }
}

/// The views of a sequence of annotations.
pub open spec fn views(s: Seq<GrammarError>) -> Seq<AnnotationView> {
    s.map_values(|e: GrammarError| e@)
}

impl GrammarError {
    /// The range lies within the text.
    pub open spec fn wf(&self) -> bool {
        &&& self.position + self.length <= self.sentence@.len()
        &&& self.sentence@.len() <= usize::MAX
    }

    pub open spec fn start(&self) -> int {
        self.position as int
    }

    pub open spec fn end(&self) -> int {
        self.position + self.length
    }
}

/// The number of suggestions kept from `k` candidates under a cap `m`.
pub open spec fn kept(k: int, m: int) -> int {
    if k < m {
        k
    } else {
        m
    }
}

/// A raw issue as mathematical values.
pub struct RawIssueView {
    pub message: Option<Seq<char>>,
    pub offset: Option<i64>,
    pub length: Option<i64>,
    pub candidates: Seq<Seq<char>>,
}

impl View for RawIssue {
    type V = RawIssueView;

    open spec fn view(&self) -> RawIssueView {
        RawIssueView {
            message: match self.message {
                Some(m) => Some(m@),
                None => None,
            },
            offset: self.offset,
            length: self.length,
            candidates: self.candidates@.map_values(|s: String| s@),
        }
    }
}

/// The views of a sequence of raw issues.
pub open spec fn raw_views(s: Seq<RawIssue>) -> Seq<RawIssueView> {
    s.map_values(|r: RawIssue| r@)
}

/// The raw issue names a message and a range within a text of `n` scalar
/// values, and keeps at least one candidate under the cap `m`.
pub open spec fn actionable(raw: RawIssueView, n: int, m: int) -> bool {
    &&& raw.message is Some
    &&& raw.offset is Some
    &&& raw.length is Some
    &&& raw.offset->0 >= 0
    &&& raw.length->0 >= 0
    &&& raw.offset->0 + raw.length->0 <= n
    &&& kept(raw.candidates.len() as int, m) > 0
}

/// The view of the annotation that an actionable `raw` becomes under
/// `options`: the same range and message, and the first candidates up to the
/// cap, in their order.
pub open spec fn raw_view(raw: RawIssueView, options: Options) -> AnnotationView {
    AnnotationView {
        start: raw.offset->0 as int,
        end: raw.offset->0 + raw.length->0,
        suggestions: raw.candidates.take(kept(raw.candidates.len() as int, options.number as int)),
        explanation: raw.message->0,
        sentence: options.text@,
    }
}

/// The views of the annotations that `raws` become under `options`, in order.
pub open spec fn normalized_views(raws: Seq<RawIssueView>, options: Options) -> Seq<
    AnnotationView,
>
    decreases raws.len(),
{
    if raws.len() == 0 {
        Seq::empty()
    } else {
        let before = normalized_views(raws.drop_last(), options);
        if actionable(raws.last(), options.text@.len() as int, options.number as int) {
            before.push(raw_view(raws.last(), options))
        } else {
            before
        }
    }
}

impl GrammarError {
    /// Normalizes one raw issue: present exactly when it is actionable.
    pub fn from_raw(raw: RawIssue, options: &Options) -> (r: Option<GrammarError>)
        ensures
            r is Some <==> actionable(raw@, options.text@.len() as int, options.number as int),
            r is Some ==> r->0@ == raw_view(raw@, *options),
            r is Some ==> r->0.wf() && r->0.sentence == options.text,
            r is Some ==> r->0.suggestions@.len() > 0,
    {
        let ghost raw0 = raw@;
        let ghost cands = raw.candidates@;
        let n = options.text.as_str().unicode_len();
        let RawIssue { message, offset, length, candidates } = raw;
        let message = match message {
            Some(m) => m,
            None => return None,
        };
        let (o, l) = match (offset, length) {
            (Some(o), Some(l)) => (o, l),
            _ => return None,
        };
        if o < 0 || l < 0 || o as u64 > n as u64 || l as u64 > n as u64 - o as u64 {
            return None;
        }
        let mut suggestions = candidates;
        suggestions.truncate(options.number as usize);
        if suggestions.len() == 0 {
            return None;
        }
        proof {
            let k = kept(cands.len() as int, options.number as int);
            assert(suggestions@ =~= cands.take(k));
        }
        let e = GrammarError {
            sentence: options.text.clone(),
            position: o as usize,
            length: l as usize,
            suggestions,
            explanation: message,
        };
        proof {
            assert(e@.suggestions =~= raw_view(raw0, *options).suggestions);
        }
        Some(e)
    }

    /// Normalizes each raw issue in turn, keeping the annotations that result.
    pub fn normalize(raws: Vec<RawIssue>, options: &Options) -> (r: Vec<GrammarError>)
        ensures
            views(r@) == normalized_views(raw_views(raws@), *options),
            r@.len() <= raws@.len(),
            forall|i: int|
                0 <= i < r@.len() ==> #[trigger] r@[i].wf() && r@[i].sentence == options.text
                    && r@[i].suggestions@.len() > 0,
    {
        let ghost raws0 = raw_views(raws@);
        let mut out: Vec<GrammarError> = Vec::new();
        let ghost mut i: int = 0;
        let mut rest = raws;
        while rest.len() > 0
            invariant
                0 <= i <= raws0.len(),
                i + rest@.len() == raws0.len(),
                raw_views(rest@) == raws0.skip(i),
                out@.len() <= i,
                views(out@) == normalized_views(raws0.take(i), *options),
                forall|k: int|
                    0 <= k < out@.len() ==> #[trigger] out@[k].wf() && out@[k].sentence
                        == options.text && out@[k].suggestions@.len() > 0,
            decreases rest@.len(),
        {
            let ghost r0 = rest@;
            let raw = rest.remove(0);
            proof {
                assert(raw_views(r0)[0] == raw@);
                assert(raws0.skip(i)[0] == raws0[i]);
                assert forall|k: int| 0 <= k < rest@.len() implies raw_views(rest@)[k]
                    == raws0.skip(i + 1)[k] by {
                    assert(rest@[k] == r0[k + 1]);
                    assert(raw_views(r0)[k + 1] == r0[k + 1]@);
                }
                assert(raw_views(rest@) =~= raws0.skip(i + 1));
                assert(raws0.take(i + 1).drop_last() =~= raws0.take(i));
                assert(raws0.take(i + 1).last() == raws0[i]);
            }
            let ghost before = out@;
            match GrammarError::from_raw(raw, options) {
                Some(e) => {
                    out.push(e);
                    assert(views(out@) =~= views(before).push(e@));
                },
                None => {},
            }
            proof {
                i = i + 1;
            }
        }
        assert(raws0.take(i) =~= raws0);
        out
    }
}

/// An actionable issue with `k` candidates under the cap `m` keeps `min(k, m)`
/// suggestions: the first candidates, in their order.
pub proof fn lemma_suggestion_cap(raw: RawIssueView, options: Options)
    requires
        actionable(raw, options.text@.len() as int, options.number as int),
    ensures
        raw_view(raw, options).suggestions.len() == if raw.candidates.len() < options.number {
            raw.candidates.len() as int
        } else {
            options.number as int
        },
        forall|i: int|
            0 <= i < raw_view(raw, options).suggestions.len() ==> #[trigger] raw_view(
                raw,
                options,
            ).suggestions[i] == raw.candidates[i],
{
}

/// Each normalized annotation keeps at most `options.number` suggestions and
/// lies within the text.
pub proof fn lemma_normalized_capped(raws: Seq<RawIssueView>, options: Options)
    ensures
        forall|i: int|
            0 <= i < normalized_views(raws, options).len() ==> {
                let a = #[trigger] normalized_views(raws, options)[i];
                &&& 0 < a.suggestions.len() <= options.number
                &&& 0 <= a.start <= a.end <= options.text@.len()
                &&& a.sentence == options.text@
            },
    decreases raws.len(),
{
    if raws.len() > 0 {
        lemma_normalized_capped(raws.drop_last(), options);
        let before = normalized_views(raws.drop_last(), options);
        let raw = raws.last();
        if actionable(raw, options.text@.len() as int, options.number as int) {
            let a = raw_view(raw, options);
            let k = kept(raw.candidates.len() as int, options.number as int);
            assert(a.suggestions.len() == k);
            let all = before.push(a);
            assert forall|i: int| 0 <= i < all.len() implies {
                let b = #[trigger] all[i];
                &&& 0 < b.suggestions.len() <= options.number
                &&& 0 <= b.start <= b.end <= options.text@.len()
                &&& b.sentence == options.text@
            } by {
                if i < before.len() {
                    assert(all[i] == before[i]);
                }
            }
        }
    }
}

} // verus!
