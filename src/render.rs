//! Styled renderings of a text with its resolved annotations.
use vstd::prelude::*;
use vstd::string::*;
use crate::issue::{AnnotationView, GrammarError, Options, RawIssue, normalized_views, raw_views, views};
use crate::offsets::{replace_range, split_chars};
use crate::resolve::{chained, forced, resolve, resolved, usable, HouseRule};

verus! {

pub const RED: &'static str = "\x1b[31m";

pub const GREEN: &'static str = "\x1b[32m";

pub const CROSSED: &'static str = "\x1b[9m";

pub const RESET: &'static str = "\x1b[0m";

/// `s` with every space shown as an underscore.
pub open spec fn underscored(s: Seq<char>) -> Seq<char> {
    s.map_values(|c: char| if c == ' ' { '_' } else { c })
}

/// `items` joined with `sep` between neighbours.
pub open spec fn joined(items: Seq<Seq<char>>, sep: Seq<char>) -> Seq<char>
    decreases items.len(),
{
    if items.len() == 0 {
        Seq::empty()
    } else if items.len() == 1 {
        items[0]
    } else {
        joined(items.drop_last(), sep) + sep + items.last()
    }
}

/// `body` between a modifier and a color, and the reset sequence.
pub open spec fn styled(modifier: Seq<char>, color: Seq<char>, body: Seq<char>) -> Seq<char> {
    modifier + color + body + RESET@
}

/// The decimal digit `d`.
pub open spec fn digit(d: nat) -> char {
    seq!['0', '1', '2', '3', '4', '5', '6', '7', '8', '9'][d as int]
}

/// The decimal notation of `n`.
pub open spec fn decimal(n: nat) -> Seq<char>
    decreases n,
{
    if n < 10 {
        seq![digit(n)]
    } else {
        decimal(n / 10) + seq![digit(n % 10)]
    }
}

/// The annotated span of the text.
pub open spec fn span(a: AnnotationView) -> Seq<char> {
    a.sentence.subrange(a.start, a.end)
}

/// The span as the marked rendering shows it.
pub open spec fn marked_span(a: AnnotationView) -> Seq<char> {
    styled(CROSSED@, RED@, underscored(span(a)))
}

/// The primary suggestion as the corrected rendering shows it.
pub open spec fn corrected_span(a: AnnotationView) -> Seq<char> {
    styled(Seq::empty(), GREEN@, a.suggestions[0])
}

/// The suggestions as an explanation line lists them.
pub open spec fn listed_suggestions(a: AnnotationView, modifier: Seq<char>, color: Seq<char>) -> Seq<
    char,
> {
    styled(
        modifier,
        color,
        joined(
            a.suggestions.map_values(|s: Seq<char>| underscored(s)),
            RESET@ + ", "@ + modifier + color,
        ),
    )
}

/// The explanation line of an annotation.
pub open spec fn explanation_line(a: AnnotationView) -> Seq<char> {
    decimal(a.start as nat) + ": "@ + styled(Seq::empty(), RED@, underscored(span(a))) + " -> "@
        + listed_suggestions(a, Seq::empty(), GREEN@) + ": "@ + styled(
        Seq::empty(),
        Seq::empty(),
        a.explanation,
    )
}

/// How a span is shown: struck through when `marked`, else replaced by the
/// primary suggestion.
pub open spec fn shown(a: AnnotationView, marked: bool) -> Seq<char> {
    if marked {
        marked_span(a)
    } else {
        corrected_span(a)
    }
}

/// Replaces the spans of `anns` in `text` by how they are shown, the last
/// annotation first.
pub open spec fn splice_descending(
    text: Seq<char>,
    anns: Seq<AnnotationView>,
    marked: bool,
) -> Seq<char>
    decreases anns.len(),
{
    if anns.len() == 0 {
        text
    } else {
        let a = anns.last();
        splice_descending(
            text.subrange(0, a.start) + shown(a, marked) + text.subrange(a.end, text.len() as int),
            anns.drop_last(),
            marked,
        )
    }
}

/// Each span of `anns`, in place in `text`, replaced by how it is shown,
/// independently of the others.
pub open spec fn spliced_independently(
    text: Seq<char>,
    anns: Seq<AnnotationView>,
    marked: bool,
) -> Seq<char>
    decreases anns.len(),
{
    if anns.len() == 0 {
        text
    } else {
        let a = anns.last();
        spliced_independently(text.subrange(0, a.start), anns.drop_last(), marked) + shown(a, marked)
            + text.subrange(a.end, text.len() as int)
    }
}

/// The annotations are chained and lie within `[0, len)`.
pub open spec fn placed(anns: Seq<AnnotationView>, len: int) -> bool {
    &&& chained(anns)
    &&& forall|i: int| 0 <= i < anns.len() ==> 0 <= #[trigger] anns[i].start <= anns[i].end <= len
}

proof fn lemma_placed_apart(anns: Seq<AnnotationView>, len: int, i: int, j: int)
    requires
        placed(anns, len),
        0 <= i < j < anns.len(),
    ensures
        anns[i].end < anns[j].start,
    decreases j - i,
{
    assert(anns[j - 1].end < anns[j].start);
    if i < j - 1 {
        lemma_placed_apart(anns, len, i, j - 1);
        assert(anns[j - 1].start <= anns[j - 1].end);
    }
}

proof fn lemma_placed_init(anns: Seq<AnnotationView>, len: int)
    requires
        placed(anns, len),
        anns.len() > 0,
    ensures
        placed(anns.drop_last(), anns.last().start),
{
    let init = anns.drop_last();
    assert forall|i: int| 0 <= i < init.len() implies 0 <= #[trigger] init[i].start
        <= init[i].end <= anns.last().start by {
        lemma_placed_apart(anns, len, i, anns.len() - 1);
    }
    assert forall|i: int| 0 <= i < init.len() - 1 implies #[trigger] init[i].end < init[i
        + 1].start by {
        assert(anns[i].end < anns[i + 1].start);
    }
}

proof fn lemma_splice_suffix(x: Seq<char>, y: Seq<char>, anns: Seq<AnnotationView>, marked: bool)
    requires
        placed(anns, x.len() as int),
    ensures
        splice_descending(x + y, anns, marked) == splice_descending(x, anns, marked) + y,
    decreases anns.len(),
{
    if anns.len() > 0 {
        let b = anns.last();
        let x1 = x.subrange(0, b.start) + shown(b, marked) + x.subrange(b.end, x.len() as int);
        assert((x + y).subrange(0, b.start) + shown(b, marked) + (x + y).subrange(
            b.end,
            (x + y).len() as int,
        ) =~= x1 + y);
        lemma_placed_init(anns, x.len() as int);
        lemma_placed_weaken(anns.drop_last(), b.start, x1.len() as int);
        lemma_splice_suffix(x1, y, anns.drop_last(), marked);
    }
}

proof fn lemma_placed_weaken(anns: Seq<AnnotationView>, len: int, bigger: int)
    requires
        placed(anns, len),
        len <= bigger,
    ensures
        placed(anns, bigger),
{
}

/// Splicing the last annotation first leaves the offsets of the earlier ones
/// valid: the result equals the text with each span replaced independently.
pub proof fn lemma_splice_non_interference(
    text: Seq<char>,
    anns: Seq<AnnotationView>,
    marked: bool,
)
    requires
        placed(anns, text.len() as int),
    ensures
        splice_descending(text, anns, marked) == spliced_independently(text, anns, marked),
    decreases anns.len(),
{
    if anns.len() > 0 {
        let a = anns.last();
        let x = text.subrange(0, a.start);
        let y = shown(a, marked) + text.subrange(a.end, text.len() as int);
        assert(x + shown(a, marked) + text.subrange(a.end, text.len() as int) =~= x + y);
        lemma_placed_init(anns, text.len() as int);
        lemma_splice_suffix(x, y, anns.drop_last(), marked);
        lemma_splice_non_interference(x, anns.drop_last(), marked);
        assert(spliced_independently(x, anns.drop_last(), marked) + y =~= spliced_independently(
            x,
            anns.drop_last(),
            marked,
        ) + shown(a, marked) + text.subrange(a.end, text.len() as int));
    }
}

/// Copies `s` with every space replaced by an underscore.
fn underscore(s: &str) -> (r: String)
    ensures
        r@ == underscored(s@),
{
    let mut out = String::new();
    let mut rest = s;
    proof {
        reveal_strlit("_");
    }
    while !rest.is_empty()
        invariant
            out@ + underscored(rest@) == underscored(s@),
            "_"@ == seq!['_'],
        decreases rest@.len(),
    {
        let (head, tail) = split_chars(rest, 1);
        let c = head.get_char(0);
        proof {
            assert(rest@ =~= head@ + tail@);
            assert(head@ =~= seq![c]);
            assert(underscored(rest@) =~= seq![if c == ' ' { '_' } else { c }] + underscored(
                tail@,
            ));
        }
        let ghost before = out@;
        if c == ' ' {
            out.append("_");
        } else {
            out.append(head);
        }
        proof {
            assert(out@ + underscored(tail@) =~= before + underscored(rest@));
        }
        rest = tail;
    }
    proof {
        assert(underscored(rest@) =~= Seq::<char>::empty());
        assert(out@ + underscored(rest@) =~= out@);
    }
    out
}

/// The decimal digit `d` as a string.
fn digit_str(d: usize) -> (r: &'static str)
    requires
        d < 10,
    ensures
        r@ == seq![digit(d as nat)],
{
    proof {
        reveal_strlit("0123456789");
    }
    let r = "0123456789".substring_char(d, d + 1);
    proof {
        assert(r@ =~= seq![digit(d as nat)]);
    }
    r
}

/// The decimal notation of `n`.
pub fn decimal_string(n: usize) -> (r: String)
    ensures
        r@ == decimal(n as nat),
    decreases n,
{
    if n < 10 {
        String::from_str(digit_str(n))
    } else {
        let mut s = decimal_string(n / 10);
        s.append(digit_str(n % 10));
        s
    }
}

impl GrammarError {
    pub fn get_start(&self) -> (r: usize)
        ensures
            r as int == self@.start,
    {
        self.position
    }

    pub fn get_end(&self) -> (r: usize)
        requires
            self.wf(),
        ensures
            r as int == self@.end,
    {
        self.position + self.length
    }

    /// The annotated span, spaces shown as underscores, styled.
    pub fn get_word(&self, color: &str, modifier: &str) -> (r: String)
        requires
            self.wf(),
        ensures
            r@ == styled(modifier@, color@, underscored(span(self@))),
    {
        let word = crate::offsets::get_range(&self.sentence, self.position, self.position + self.length);
        let word = underscore(word.as_str());
        let mut r = String::from_str(modifier);
        r.append(color);
        r.append(word.as_str());
        r.append(RESET);
        r
    }

    /// All suggestions, spaces shown as underscores, each styled.
    pub fn get_suggestions(&self, color: &str, modifier: &str) -> (r: String)
        ensures
            r@ == listed_suggestions(self@, modifier@, color@),
    {
        let ghost items = self@.suggestions.map_values(|s: Seq<char>| underscored(s));
        let mut sep = String::from_str(RESET);
        proof {
            reveal_strlit(", ");
        }
        sep.append(", ");
        sep.append(modifier);
        sep.append(color);
        let mut body = String::new();
        let mut i: usize = 0;
        while i < self.suggestions.len()
            invariant
                i <= self.suggestions@.len(),
                items.len() == self.suggestions@.len(),
                items == self@.suggestions.map_values(|s: Seq<char>| underscored(s)),
                sep@ == RESET@ + ", "@ + modifier@ + color@,
                body@ == joined(items.take(i as int), sep@),
            decreases self.suggestions@.len() - i,
        {
            if i > 0 {
                body.append(sep.as_str());
            }
            let u = underscore(self.suggestions[i].as_str());
            body.append(u.as_str());
            proof {
                assert(items[i as int] == underscored(self.suggestions@[i as int]@));
                assert(items.take(i + 1).drop_last() =~= items.take(i as int));
                if i == 0 {
                    assert(body@ =~= items.take(1)[0]);
                }
            }
            i = i + 1;
        }
        proof {
            assert(items.take(i as int) =~= items);
        }
        let mut r = String::from_str(modifier);
        r.append(color);
        r.append(body.as_str());
        r.append(RESET);
        r
    }

    /// The explanation, styled.
    pub fn get_explanation(&self, color: &str, modifier: &str) -> (r: String)
        ensures
            r@ == styled(modifier@, color@, self@.explanation),
    {
        let mut r = String::from_str(modifier);
        r.append(color);
        r.append(self.explanation.as_str());
        r.append(RESET);
        r
    }

    /// The explanation line: position, span, suggestions and explanation.
    pub fn get_line(&self) -> (r: String)
        requires
            self.wf(),
        ensures
            r@ == explanation_line(self@),
    {
        proof {
            reveal_strlit(": ");
            reveal_strlit(" -> ");
            reveal_strlit("");
        }
        let mut r = decimal_string(self.position);
        r.append(": ");
        let w = self.get_word(RED, "");
        r.append(w.as_str());
        r.append(" -> ");
        let s = self.get_suggestions(GREEN, "");
        r.append(s.as_str());
        r.append(": ");
        let e = self.get_explanation("", "");
        r.append(e.as_str());
        proof {
            assert(""@ =~= Seq::<char>::empty());
        }
        r
    }
}

/// A text with its resolved annotations, and the options it was analyzed with.
pub struct Voltaire {
    pub sentence: String,
    pub errors: Vec<GrammarError>,
    pub options: Options,
}

/// What rendering produces.
pub struct Rendering {
    /// No annotation was found.
    pub clean: bool,
    /// Styled headline, distinct for a clean text.
    pub headline: String,
    /// The text with each annotated span struck through.
    pub marked: String,
    /// The text with each annotated span replaced by its primary suggestion.
    pub corrected: String,
    /// One line per annotation, in ascending position, when verbose.
    pub explanations: Vec<String>,
}

impl Voltaire {
    /// The annotations refer to the text, lie within it, and are chained.
    pub open spec fn wf(&self) -> bool {
        &&& forall|i: int|
            0 <= i < self.errors@.len() ==> usable(#[trigger] self.errors@[i], self.sentence@)
        &&& chained(views(self.errors@))
    }

    /// Normalizes `raws`, then resolves the annotations with `rules`.
    pub fn from_raw_issues(raws: Vec<RawIssue>, options: Options, rules: &Vec<HouseRule>) -> (r:
        Voltaire)
        ensures
            r.wf(),
            r.sentence == options.text,
            r.options == options,
            views(r.errors@) == resolved(
                forced(options.text@, rules@) + normalized_views(raw_views(raws@), options),
            ),
    {
        let errors = GrammarError::normalize(raws, &options);
        // The text's length in scalar values fits in usize.
        let _n = options.text.as_str().unicode_len();
        let errors = resolve(errors, &options.text, rules);
        let sentence = options.text.clone();
        Voltaire { sentence, errors, options }
    }

    /// Renders the text with its annotations, splicing the last annotation
    /// first so that the offsets of those before it stay valid.
    pub fn render(&self) -> (r: Rendering)
        requires
            self.wf(),
        ensures
            r.clean == (self.errors@.len() == 0),
            r.headline@ == if r.clean {
                styled(Seq::empty(), GREEN@, "Great"@)
            } else {
                styled(Seq::empty(), RED@, "Disappointing..."@)
            },
            r.marked@ == splice_descending(
                self.sentence@,
                views(self.errors@),
                true,
            ),
            r.corrected@ == splice_descending(
                self.sentence@,
                views(self.errors@),
                false,
            ),
            r.marked@ == spliced_independently(self.sentence@, views(self.errors@), true),
            r.corrected@ == spliced_independently(self.sentence@, views(self.errors@), false),
            r.explanations@.len() == if self.options.verbose {
                self.errors@.len()
            } else {
                0
            },
            forall|k: int|
                0 <= k < r.explanations@.len() ==> #[trigger] r.explanations@[k]@
                    == explanation_line(self.errors@[k]@),
    {
        let ghost anns = views(self.errors@);
        let ghost text = self.sentence@;
        let mut marked = self.sentence.clone();
        let mut corrected = self.sentence.clone();
        let mut explanations: Vec<String> = Vec::new();
        let n = self.errors.len();
        let mut i: usize = n;
        proof {
            assert(anns.take(n as int) =~= anns);
        }
        while i > 0
            invariant
                self.wf(),
                n == self.errors@.len(),
                anns == views(self.errors@),
                text == self.sentence@,
                i <= n,
                i < n ==> marked@.len() >= anns[i as int].start && corrected@.len() >= anns[
                    i as int
                ].start,
                i == n ==> marked@ == text && corrected@ == text,
                i < n ==> marked@.subrange(0, anns[i as int].start) == text.subrange(
                    0,
                    anns[i as int].start,
                ),
                i < n ==> corrected@.subrange(0, anns[i as int].start) == text.subrange(
                    0,
                    anns[i as int].start,
                ),
                splice_descending(text, anns, true) == splice_descending(
                    marked@,
                    anns.take(i as int),
                    true,
                ),
                splice_descending(text, anns, false) == splice_descending(
                    corrected@,
                    anns.take(i as int),
                    false,
                ),
                explanations@.len() == if self.options.verbose {
                    n - i
                } else {
                    0
                },
                forall|k: int|
                    0 <= k < explanations@.len() ==> #[trigger] explanations@[k]@
                        == explanation_line(self.errors@[i + k]@),
            decreases i,
        {
            let e = &self.errors[i - 1];
            let ghost a = anns[i - 1];
            proof {
                assert(views(self.errors@)[i - 1] == self.errors@[i - 1]@);
                assert(a == e@);
                assert(usable(*e, text));
                if i < n {
                    assert(anns[i - 1].end < anns[i as int].start);
                }
                assert(anns.take(i as int).last() == a);
                assert(anns.take(i as int).drop_last() =~= anns.take(i - 1));
            }
            let start = e.get_start();
            let end = e.get_end();
            if self.options.verbose {
                let line = e.get_line();
                explanations.insert(0, line);
            }
            let ghost m0 = marked@;
            let ghost c0 = corrected@;
            replace_range(&mut marked, start, end, e.get_word(RED, CROSSED));
            let mut fixed = String::from_str(GREEN);
            fixed.append(e.suggestions[0].as_str());
            fixed.append(RESET);
            replace_range(&mut corrected, start, end, fixed);
            proof {
                assert(m0.subrange(0, a.start) =~= text.subrange(0, a.start)) by {
                    if i < n {
                        assert(m0.subrange(0, a.start) =~= m0.subrange(0, anns[i as int].start).subrange(0, a.start));
                        assert(text.subrange(0, a.start) =~= text.subrange(0, anns[i as int].start).subrange(0, a.start));
                    }
                }
                assert(c0.subrange(0, a.start) =~= text.subrange(0, a.start)) by {
                    if i < n {
                        assert(c0.subrange(0, a.start) =~= c0.subrange(0, anns[i as int].start).subrange(0, a.start));
                        assert(text.subrange(0, a.start) =~= text.subrange(0, anns[i as int].start).subrange(0, a.start));
                    }
                }
                assert(marked@.subrange(0, a.start) =~= text.subrange(0, a.start));
                assert(corrected@.subrange(0, a.start) =~= text.subrange(0, a.start));
            }
            i = i - 1;
        }
        proof {
            assert(anns.take(0) =~= Seq::<AnnotationView>::empty());
            assert forall|k: int| 0 <= k < anns.len() implies 0 <= #[trigger] anns[k].start
                <= anns[k].end <= text.len() by {
                assert(anns[k] == self.errors@[k]@);
                assert(usable(self.errors@[k], text));
            }
            lemma_splice_non_interference(text, anns, true);
            lemma_splice_non_interference(text, anns, false);
        }
        let clean = n == 0;
        let headline = if clean {
            let mut v = String::from_str(GREEN);
            v.append("Great");
            v.append(RESET);
            v
        } else {
            let mut v = String::from_str(RED);
            v.append("Disappointing...");
            v.append(RESET);
            v
        };
        Rendering { clean, headline, marked, corrected, explanations }
    }
}

} // verus!
