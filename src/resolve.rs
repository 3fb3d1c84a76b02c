//! Ordering annotations by position and merging those that overlap or touch.
use vstd::prelude::*;
use crate::issue::{AnnotationView, GrammarError, views};
use crate::offsets::{chars_of, replace_range};

verus! {

/// `s` with `[a, b)` replaced by `w`, both bounds clamped to the length of `s`.
pub open spec fn splice(s: Seq<char>, a: int, b: int, w: Seq<char>) -> Seq<char> {
    let a1 = if a < s.len() {
        a
    } else {
        s.len() as int
    };
    let b1 = if b < a1 {
        a1
    } else if b < s.len() {
        b
    } else {
        s.len() as int
    };
    s.subrange(0, a1) + w + s.subrange(b1, s.len() as int)
}

/// `pred` after `cur` is merged into it: the range grows to cover both, and
/// the primary suggestion of `cur` is spliced into that of `pred` at the
/// offset of `cur` relative to the start of `pred`.
pub open spec fn absorb(pred: AnnotationView, cur: AnnotationView) -> AnnotationView {
    let rel = if cur.start >= pred.start {
        cur.start - pred.start
    } else {
        0
    };
    let primary = splice(
        pred.suggestions[0],
        rel,
        rel + (cur.end - cur.start),
        cur.suggestions[0],
    );
    AnnotationView {
        end: if cur.end > pred.end {
            cur.end
        } else {
            pred.end
        },
        suggestions: pred.suggestions.update(0, primary),
        ..pred
    }
}

/// `cur` placed in front of the already resolved `out`, absorbing every
/// leading annotation of `out` that its range reaches.
pub open spec fn merge_front(cur: AnnotationView, out: Seq<AnnotationView>) -> Seq<
    AnnotationView,
>
    decreases out.len(),
{
    if out.len() > 0 && cur.end >= out[0].start {
        merge_front(absorb(cur, out[0]), out.drop_first())
    } else {
        seq![cur] + out
    }
}

/// Merging scans from the last annotation toward the first.
pub open spec fn merge_overlaps(s: Seq<AnnotationView>) -> Seq<AnnotationView>
    decreases s.len(),
{
    if s.len() == 0 {
        s
    } else {
        merge_front(s[0], merge_overlaps(s.drop_first()))
    }
}

/// `x` inserted into `s` after every annotation that starts at or before it.
pub open spec fn insert_by_start(s: Seq<AnnotationView>, x: AnnotationView) -> Seq<
    AnnotationView,
>
    decreases s.len(),
{
    if s.len() == 0 {
        seq![x]
    } else if s.last().start <= x.start {
        s.push(x)
    } else {
        insert_by_start(s.drop_last(), x).push(s.last())
    }
}

/// Stable sort by start: equal starts keep their order.
pub open spec fn sort_by_start(s: Seq<AnnotationView>) -> Seq<AnnotationView>
    decreases s.len(),
{
    if s.len() == 0 {
        s
    } else {
        insert_by_start(sort_by_start(s.drop_last()), s.last())
    }
}

/// What the resolver makes of `s`.
pub open spec fn resolved(s: Seq<AnnotationView>) -> Seq<AnnotationView> {
    merge_overlaps(sort_by_start(s))
}

/// Each annotation ends strictly before the next one starts.
pub open spec fn chained(s: Seq<AnnotationView>) -> bool {
    forall|i: int| 0 <= i < s.len() - 1 ==> #[trigger] s[i].end < s[i + 1].start
}

/// Starts never decrease along `s`.
pub open spec fn sorted_by_start(s: Seq<AnnotationView>) -> bool {
    forall|i: int, j: int| 0 <= i <= j < s.len() ==> s[i].start <= s[j].start
}

/// The annotation lies within `text` and has a primary suggestion.
pub open spec fn fits(a: AnnotationView, text: Seq<char>) -> bool {
    &&& 0 <= a.start <= a.end <= text.len()
    &&& a.suggestions.len() > 0
    &&& a.sentence == text
}

pub open spec fn all_fit(s: Seq<AnnotationView>, text: Seq<char>) -> bool {
    forall|i: int| 0 <= i < s.len() ==> fits(#[trigger] s[i], text)
}

proof fn lemma_insert_at(s: Seq<AnnotationView>, x: AnnotationView, p: int)
    requires
        0 <= p <= s.len(),
        forall|k: int| p <= k < s.len() ==> s[k].start > x.start,
        p > 0 ==> s[p - 1].start <= x.start,
    ensures
        insert_by_start(s, x) == s.take(p).push(x) + s.skip(p),
    decreases s.len(),
{
    if s.len() == 0 {
        assert(s.take(p).push(x) + s.skip(p) =~= seq![x]);
    } else if p == s.len() {
        assert(s.take(p).push(x) + s.skip(p) =~= s.push(x));
    } else {
        lemma_insert_at(s.drop_last(), x, p);
        assert(s.drop_last().take(p).push(x) + s.drop_last().skip(p) + seq![s.last()]
            =~= s.take(p).push(x) + s.skip(p));
    }
}

proof fn lemma_insert_fits(s: Seq<AnnotationView>, x: AnnotationView, text: Seq<char>)
    requires
        all_fit(s, text),
        fits(x, text),
    ensures
        all_fit(insert_by_start(s, x), text),
        insert_by_start(s, x).len() == s.len() + 1,
    decreases s.len(),
{
    if s.len() > 0 && s.last().start > x.start {
        lemma_insert_fits(s.drop_last(), x, text);
    }
}

/// Sorting a sequence that is already ordered by start leaves it as it is.
pub proof fn lemma_sort_sorted(s: Seq<AnnotationView>)
    requires
        sorted_by_start(s),
    ensures
        sort_by_start(s) == s,
    decreases s.len(),
{
    if s.len() > 0 {
        lemma_sort_sorted(s.drop_last());
        assert(s.drop_last().push(s.last()) =~= s);
    }
}

/// Sorts `errors` by start, stably.
pub fn sort_errors(errors: Vec<GrammarError>) -> (r: Vec<GrammarError>)
    ensures
        views(r@) == sort_by_start(views(errors@)),
{
    let ghost input = views(errors@);
    let mut rest = errors;
    let mut out: Vec<GrammarError> = Vec::new();
    let ghost mut i: int = 0;
    while rest.len() > 0
        invariant
            0 <= i <= input.len(),
            views(rest@) == input.skip(i),
            rest@.len() + i == input.len(),
            views(out@) == sort_by_start(input.take(i)),
        decreases rest@.len(),
    {
        let ghost r0 = rest@;
        let x = rest.remove(0);
        proof {
            assert(views(r0)[0] == x@);
            assert(input.skip(i)[0] == input[i]);
            assert(x@ == input[i]);
            assert forall|k: int| 0 <= k < rest@.len() implies views(rest@)[k] == input.skip(
                i + 1,
            )[k] by {
                assert(rest@[k] == r0[k + 1]);
                assert(views(r0)[k + 1] == r0[k + 1]@);
            }
            assert(views(rest@) =~= input.skip(i + 1));
            assert(input.take(i + 1).drop_last() =~= input.take(i));
        }
        let mut p = out.len();
        while p > 0 && out[p - 1].position > x.position
            invariant
                p <= out@.len(),
                forall|k: int| p <= k < out@.len() ==> out@[k].position > x.position,
            decreases p,
        {
            p = p - 1;
        }
        let ghost before = views(out@);
        out.insert(p, x);
        proof {
            lemma_insert_at(before, x@, p as int);
            assert(views(out@) =~= before.take(p as int).push(x@) + before.skip(p as int));
            i = i + 1;
        }
    }
    proof {
        assert(input.take(i) =~= input);
    }
    out
}

/// The annotation lies within `text`, which it refers to, and has a primary
/// suggestion.
pub open spec fn usable(e: GrammarError, text: Seq<char>) -> bool {
    &&& e.wf()
    &&& e.suggestions@.len() > 0
    &&& e.sentence@ == text
}

/// Merges `cur` into `pred`.
fn absorb_into(pred: GrammarError, cur: GrammarError, Ghost(text): Ghost<Seq<char>>) -> (r:
    GrammarError)
    requires
        usable(pred, text),
        usable(cur, text),
    ensures
        r@ == absorb(pred@, cur@),
        usable(r, text),
{
    let ghost p0 = pred@;
    let GrammarError { sentence, position, length, suggestions, explanation } = pred;
    let mut suggestions = suggestions;
    let mut primary = suggestions.remove(0);
    let plen = primary.as_str().unicode_len();
    let rel = if cur.position >= position {
        cur.position - position
    } else {
        0
    };
    let a = if rel < plen {
        rel
    } else {
        plen
    };
    let b0 = rel + cur.length;
    let b = if b0 < a {
        a
    } else if b0 < plen {
        b0
    } else {
        plen
    };
    let mut cur_suggestions = cur.suggestions;
    let with = cur_suggestions.remove(0);
    replace_range(&mut primary, a, b, with);
    suggestions.insert(0, primary);
    let pred_end = position + length;
    let cur_end = cur.position + cur.length;
    let end = if cur_end > pred_end {
        cur_end
    } else {
        pred_end
    };
    let r = GrammarError { sentence, position, length: end - position, suggestions, explanation };
    proof {
        assert(r@.suggestions =~= p0.suggestions.update(0, r@.suggestions[0]));
    }
    r
}

/// Resolved annotations keep lying within the text.
proof fn lemma_absorb_fits(pred: AnnotationView, cur: AnnotationView, text: Seq<char>)
    requires
        fits(pred, text),
        fits(cur, text),
    ensures
        fits(absorb(pred, cur), text),
        absorb(pred, cur).start == pred.start,
        absorb(pred, cur).end >= pred.end,
        absorb(pred, cur).end >= cur.end,
{
}

proof fn lemma_merge_front(cur: AnnotationView, out: Seq<AnnotationView>, text: Seq<char>)
    requires
        fits(cur, text),
        all_fit(out, text),
        chained(out),
    ensures
        all_fit(merge_front(cur, out), text),
        chained(merge_front(cur, out)),
        merge_front(cur, out).len() > 0,
        merge_front(cur, out)[0].start == cur.start,
    decreases out.len(),
{
    if out.len() > 0 && cur.end >= out[0].start {
        lemma_absorb_fits(cur, out[0], text);
        let rest = out.drop_first();
        assert(chained(rest)) by {
            assert forall|i: int| 0 <= i < rest.len() - 1 implies #[trigger] rest[i].end < rest[i
                + 1].start by {
                assert(out[i + 1].end < out[i + 2].start);
            }
        }
        lemma_merge_front(absorb(cur, out[0]), rest, text);
    } else {
        let m = seq![cur] + out;
        assert forall|i: int| 0 <= i < m.len() - 1 implies #[trigger] m[i].end < m[i + 1].start by {
            if i > 0 {
                assert(out[i - 1].end < out[i].start);
            }
        }
    }
}

/// The merged sequence is chained and still lies within the text.
pub proof fn lemma_merge_chained(s: Seq<AnnotationView>, text: Seq<char>)
    requires
        all_fit(s, text),
    ensures
        all_fit(merge_overlaps(s), text),
        chained(merge_overlaps(s)),
    decreases s.len(),
{
    if s.len() > 0 {
        lemma_merge_chained(s.drop_first(), text);
        lemma_merge_front(s[0], merge_overlaps(s.drop_first()), text);
    }
}

proof fn lemma_sort_fits(s: Seq<AnnotationView>, text: Seq<char>)
    requires
        all_fit(s, text),
    ensures
        all_fit(sort_by_start(s), text),
    decreases s.len(),
{
    if s.len() > 0 {
        lemma_sort_fits(s.drop_last(), text);
        lemma_insert_fits(sort_by_start(s.drop_last()), s.last(), text);
    }
}

/// Merges overlapping or touching neighbours, scanning from the end.
fn merge_errors(errors: Vec<GrammarError>, Ghost(text): Ghost<Seq<char>>) -> (r: Vec<
    GrammarError,
>)
    requires
        forall|i: int| 0 <= i < errors@.len() ==> usable(#[trigger] errors@[i], text),
    ensures
        views(r@) == merge_overlaps(views(errors@)),
        forall|i: int| 0 <= i < r@.len() ==> usable(#[trigger] r@[i], text),
{
    let ghost input = views(errors@);
    let mut rest = errors;
    let mut out: Vec<GrammarError> = Vec::new();
    proof {
        assert(input.skip(input.len() as int) =~= Seq::<AnnotationView>::empty());
        assert(input.take(input.len() as int) =~= input);
    }
    while rest.len() > 0
        invariant
            rest@.len() <= input.len(),
            views(rest@) == input.take(rest@.len() as int),
            views(out@) == merge_overlaps(input.skip(rest@.len() as int)),
            forall|i: int| 0 <= i < rest@.len() ==> usable(#[trigger] rest@[i], text),
            forall|i: int| 0 <= i < out@.len() ==> usable(#[trigger] out@[i], text),
        decreases rest@.len(),
    {
        let ghost n = rest@.len() as int;
        let ghost r0 = rest@;
        let mut cur = rest.pop().unwrap();
        proof {
            assert(views(r0)[n - 1] == cur@);
            assert(input.take(n)[n - 1] == input[n - 1]);
            assert(input.skip(n - 1).drop_first() =~= input.skip(n));
            assert(input.skip(n - 1)[0] == input[n - 1]);
            assert(views(rest@) =~= input.take(n - 1));
        }
        let ghost target = merge_front(cur@, views(out@));
        while out.len() > 0 && cur.position + cur.length >= out[0].position
            invariant
                merge_front(cur@, views(out@)) == target,
                usable(cur, text),
                forall|i: int| 0 <= i < out@.len() ==> usable(#[trigger] out@[i], text),
            decreases out@.len(),
        {
            let ghost o0 = out@;
            let nxt = out.remove(0);
            proof {
                assert(views(o0)[0] == nxt@);
                assert(views(out@) =~= views(o0).drop_first());
            }
            cur = absorb_into(cur, nxt, Ghost(text));
        }
        let ghost o1 = views(out@);
        out.insert(0, cur);
        proof {
            assert(views(out@) =~= seq![cur@] + o1);
        }
    }
    out
}

/// A correction that stands independently of the analysis provider: the first
/// occurrence of `pattern`, compared without regard to ASCII case, is replaced
/// by `replacement`.
pub struct HouseRule {
    pub pattern: String,
    pub replacement: String,
    pub explanation: String,
}

/// The code of `c` with ASCII upper case folded to lower case.
pub open spec fn folded(c: char) -> u32 {
    if 65 <= (c as u32) <= 90 {
        (c as u32 + 32) as u32
    } else {
        c as u32
    }
}

/// `pat` occurs in `text` at `p`, without regard to ASCII case.
pub open spec fn matches_at(text: Seq<char>, pat: Seq<char>, p: int) -> bool {
    &&& 0 <= p
    &&& p + pat.len() <= text.len()
    &&& forall|k: int| 0 <= k < pat.len() ==> folded(#[trigger] text[p + k]) == folded(pat[k])
}

/// `p` is the first occurrence of a non-empty `pat` in `text`.
pub open spec fn first_match(text: Seq<char>, pat: Seq<char>, p: int) -> bool {
    &&& pat.len() > 0
    &&& matches_at(text, pat, p)
    &&& forall|q: int| 0 <= q < p ==> !matches_at(text, pat, q)
}

/// A non-empty `pat` occurs somewhere in `text`.
pub open spec fn occurs(text: Seq<char>, pat: Seq<char>) -> bool {
    pat.len() > 0 && exists|p: int| matches_at(text, pat, p)
}

fn fold_char(c: char) -> (r: u32)
    ensures
        r == folded(c),
{
    let v = c as u32;
    if 65 <= v && v <= 90 {
        v + 32
    } else {
        v
    }
}

/// Where a non-empty `pat` first occurs in `text`, without regard to ASCII case.
pub fn find_folded(text: &str, pat: &str) -> (r: Option<usize>)
    ensures
        r is Some ==> first_match(text@, pat@, r->0 as int),
        r is None ==> !occurs(text@, pat@),
{
    let tv = chars_of(text);
    let pv = chars_of(pat);
    let n = tv.len();
    let m = pv.len();
    if m == 0 || m > n {
        return None;
    }
    let mut p: usize = 0;
    while p <= n - m
        invariant
            tv@ == text@,
            pv@ == pat@,
            n == text@.len(),
            m == pat@.len(),
            0 < m <= n,
            p <= n - m + 1,
            forall|q: int| 0 <= q < p ==> !matches_at(text@, pat@, q),
        decreases n - m + 1 - p,
    {
        let mut k: usize = 0;
        let mut same = true;
        while k < m && same
            invariant
                tv@ == text@,
                pv@ == pat@,
                n == text@.len(),
                m == pat@.len(),
                p + m <= n,
                k <= m,
                same ==> forall|j: int| 0 <= j < k ==> folded(#[trigger] text@[p + j]) == folded(
                    pat@[j],
                ),
                !same ==> !matches_at(text@, pat@, p as int),
            decreases m - k + if same {
                1int
            } else {
                0int
            },
        {
            if fold_char(tv[p + k]) != fold_char(pv[k]) {
                same = false;
            } else {
                k = k + 1;
            }
        }
        if same {
            return Some(p);
        }
        p = p + 1;
    }
    proof {
        assert forall|q: int| matches_at(text@, pat@, q) implies false by {
            assert(q < p);
        }
    }
    None
}

/// The annotations that `rules` force on `text`, in the order of the rules.
pub open spec fn forced(text: Seq<char>, rules: Seq<HouseRule>) -> Seq<AnnotationView>
    decreases rules.len(),
{
    if rules.len() == 0 {
        Seq::empty()
    } else {
        let rule = rules.last();
        let before = forced(text, rules.drop_last());
        if occurs(text, rule.pattern@) {
            let p = choose|p: int| first_match(text, rule.pattern@, p);
            before.push(
                AnnotationView {
                    start: p,
                    end: p + rule.pattern@.len(),
                    suggestions: seq![rule.replacement@],
                    explanation: rule.explanation@,
                    sentence: text,
                },
            )
        } else {
            before
        }
    }
}

proof fn lemma_first_match_unique(text: Seq<char>, pat: Seq<char>, p: int, q: int)
    requires
        first_match(text, pat, p),
        first_match(text, pat, q),
    ensures
        p == q,
{
}

/// The annotations forced by `rules` on `text`.
pub fn forced_errors(text: &String, rules: &Vec<HouseRule>) -> (r: Vec<GrammarError>)
    ensures
        views(r@) == forced(text@, rules@),
        forall|i: int| 0 <= i < r@.len() ==> usable(#[trigger] r@[i], text@),
{
    let n = text.as_str().unicode_len();
    let mut out: Vec<GrammarError> = Vec::new();
    let mut i: usize = 0;
    while i < rules.len()
        invariant
            n == text@.len(),
            i <= rules@.len(),
            views(out@) == forced(text@, rules@.take(i as int)),
            forall|k: int| 0 <= k < out@.len() ==> usable(#[trigger] out@[k], text@),
        decreases rules@.len() - i,
    {
        let rule = &rules[i];
        proof {
            assert(rules@.take(i + 1).drop_last() =~= rules@.take(i as int));
            assert(rules@.take(i + 1).last() == rules@[i as int]);
        }
        match find_folded(text.as_str(), rule.pattern.as_str()) {
            Some(p) => {
                let ghost before = views(out@);
                let e = GrammarError {
                    sentence: text.clone(),
                    position: p,
                    length: rule.pattern.as_str().unicode_len(),
                    suggestions: vec![rule.replacement.clone()],
                    explanation: rule.explanation.clone(),
                };
                out.push(e);
                proof {
                    let q = choose|q: int| first_match(text@, rule.pattern@, q);
                    lemma_first_match_unique(text@, rule.pattern@, p as int, q);
                    assert(e@.suggestions =~= seq![rule.replacement@]);
                    assert(views(out@) =~= before.push(e@));
                }
            },
            None => {},
        }
        i = i + 1;
    }
    proof {
        assert(rules@.take(i as int) =~= rules@);
    }
    out
}

/// Resolves `errors` over `text`: the annotations forced by `rules` come
/// first, all are sorted stably by start, and neighbours that overlap or touch
/// are merged.
pub fn resolve(errors: Vec<GrammarError>, text: &String, rules: &Vec<HouseRule>) -> (r: Vec<
    GrammarError,
>)
    requires
        forall|i: int| 0 <= i < errors@.len() ==> usable(#[trigger] errors@[i], text@),
    ensures
        views(r@) == resolved(forced(text@, rules@) + views(errors@)),
        chained(views(r@)),
        forall|i: int| 0 <= i < r@.len() ==> usable(#[trigger] r@[i], text@),
{
    let mut all = forced_errors(text, rules);
    let ghost f = views(all@);
    let mut errors = errors;
    let ghost e = views(errors@);
    all.append(&mut errors);
    proof {
        assert(views(all@) =~= f + e);
    }
    // The text's length in scalar values fits in usize.
    let _n = text.as_str().unicode_len();
    proof {
        assert forall|i: int| 0 <= i < views(all@).len() implies fits(
            #[trigger] views(all@)[i],
            text@,
        ) by {
            assert(usable(all@[i], text@));
        }
    }
    let sorted = sort_errors(all);
    proof {
        lemma_sort_fits(views(all@), text@);
        assert forall|i: int| 0 <= i < sorted@.len() implies usable(#[trigger] sorted@[i], text@) by {
            assert(views(sorted@)[i] == sorted@[i]@);
            assert(fits(views(sorted@)[i], text@));
        }
    }
    let r = merge_errors(sorted, Ghost(text@));
    proof {
        lemma_merge_chained(views(sorted@), text@);
    }
    r
}

proof fn lemma_chained_sorted(s: Seq<AnnotationView>, text: Seq<char>)
    requires
        all_fit(s, text),
        chained(s),
    ensures
        sorted_by_start(s),
{
    assert forall|i: int, j: int| 0 <= i <= j < s.len() implies s[i].start <= s[j].start by {
        lemma_chained_step(s, text, i, j);
    }
}

proof fn lemma_chained_step(s: Seq<AnnotationView>, text: Seq<char>, i: int, j: int)
    requires
        all_fit(s, text),
        chained(s),
        0 <= i <= j < s.len(),
    ensures
        s[i].start <= s[j].start,
    decreases j - i,
{
    if i < j {
        lemma_chained_step(s, text, i, j - 1);
        assert(s[j - 1].end < s[j].start);
        assert(fits(s[j - 1], text));
    }
}

proof fn lemma_merge_chained_fixed(s: Seq<AnnotationView>)
    requires
        chained(s),
    ensures
        merge_overlaps(s) == s,
    decreases s.len(),
{
    if s.len() > 0 {
        let rest = s.drop_first();
        assert(chained(rest)) by {
            assert forall|i: int| 0 <= i < rest.len() - 1 implies #[trigger] rest[i].end < rest[i
                + 1].start by {
                assert(s[i + 1].end < s[i + 2].start);
            }
        }
        lemma_merge_chained_fixed(rest);
        if rest.len() > 0 {
            assert(s[0].end < s[1].start);
        }
        assert(seq![s[0]] + rest =~= s);
    }
}

/// Neighbours in the resolver's output never overlap: each ends at or before
/// the start of the next.
pub proof fn lemma_resolved_disjoint(s: Seq<AnnotationView>, text: Seq<char>)
    requires
        all_fit(s, text),
    ensures
        forall|i: int|
            0 <= i < resolved(s).len() - 1 ==> #[trigger] resolved(s)[i].end <= resolved(s)[i
                + 1].start,
        all_fit(resolved(s), text),
{
    lemma_sort_fits(s, text);
    lemma_merge_chained(sort_by_start(s), text);
    let r = resolved(s);
    assert forall|i: int| 0 <= i < r.len() - 1 implies #[trigger] r[i].end <= r[i + 1].start by {
        assert(r[i].end < r[i + 1].start);
    }
}

/// Resolving the resolver's own output changes nothing.
pub proof fn lemma_resolve_idempotent(s: Seq<AnnotationView>, text: Seq<char>)
    requires
        all_fit(s, text),
    ensures
        resolved(resolved(s)) == resolved(s),
{
    lemma_sort_fits(s, text);
    lemma_merge_chained(sort_by_start(s), text);
    let r = resolved(s);
    lemma_chained_sorted(r, text);
    lemma_sort_sorted(r);
    lemma_merge_chained_fixed(r);
}

/// No annotation of `s` has more than `m` suggestions.
pub open spec fn all_capped(s: Seq<AnnotationView>, m: int) -> bool {
    forall|i: int| 0 <= i < s.len() ==> (#[trigger] s[i]).suggestions.len() <= m
}

proof fn lemma_insert_capped(s: Seq<AnnotationView>, x: AnnotationView, m: int)
    requires
        all_capped(s, m),
        x.suggestions.len() <= m,
    ensures
        all_capped(insert_by_start(s, x), m),
    decreases s.len(),
{
    if s.len() > 0 && s.last().start > x.start {
        lemma_insert_capped(s.drop_last(), x, m);
    }
}

proof fn lemma_sort_capped(s: Seq<AnnotationView>, m: int)
    requires
        all_capped(s, m),
    ensures
        all_capped(sort_by_start(s), m),
    decreases s.len(),
{
    if s.len() > 0 {
        lemma_sort_capped(s.drop_last(), m);
        lemma_insert_capped(sort_by_start(s.drop_last()), s.last(), m);
    }
}

proof fn lemma_merge_front_capped(cur: AnnotationView, out: Seq<AnnotationView>, m: int)
    requires
        cur.suggestions.len() > 0,
        cur.suggestions.len() <= m,
        all_capped(out, m),
        forall|i: int| 0 <= i < out.len() ==> (#[trigger] out[i]).suggestions.len() > 0,
    ensures
        all_capped(merge_front(cur, out), m),
    decreases out.len(),
{
    if out.len() > 0 && cur.end >= out[0].start {
        let rest = out.drop_first();
        assert forall|i: int| 0 <= i < rest.len() implies (#[trigger] rest[i]).suggestions.len()
            > 0 && rest[i].suggestions.len() <= m by {
            assert(rest[i] == out[i + 1]);
        }
        lemma_merge_front_capped(absorb(cur, out[0]), rest, m);
    } else {
        let r = seq![cur] + out;
        assert forall|i: int| 0 <= i < r.len() implies (#[trigger] r[i]).suggestions.len()
            <= m by {
            if i > 0 {
                assert(r[i] == out[i - 1]);
            }
        }
    }
}

proof fn lemma_merge_front_nonempty(cur: AnnotationView, out: Seq<AnnotationView>)
    requires
        cur.suggestions.len() > 0,
        forall|i: int| 0 <= i < out.len() ==> (#[trigger] out[i]).suggestions.len() > 0,
    ensures
        forall|i: int|
            0 <= i < merge_front(cur, out).len() ==> (#[trigger] merge_front(
                cur,
                out,
            )[i]).suggestions.len() > 0,
    decreases out.len(),
{
    if out.len() > 0 && cur.end >= out[0].start {
        let rest = out.drop_first();
        assert forall|i: int| 0 <= i < rest.len() implies (#[trigger] rest[i]).suggestions.len()
            > 0 by {
            assert(rest[i] == out[i + 1]);
        }
        assert(absorb(cur, out[0]).suggestions.len() == cur.suggestions.len());
        lemma_merge_front_nonempty(absorb(cur, out[0]), rest);
        assert(merge_front(cur, out) == merge_front(absorb(cur, out[0]), rest));
    } else {
        let r = seq![cur] + out;
        assert(merge_front(cur, out) == r);
        assert forall|i: int| 0 <= i < r.len() implies (#[trigger] r[i]).suggestions.len()
            > 0 by {
            if i > 0 {
                assert(r[i] == out[i - 1]);
            }
        }
    }
}

proof fn lemma_merge_capped(s: Seq<AnnotationView>, m: int)
    requires
        all_capped(s, m),
        forall|i: int| 0 <= i < s.len() ==> (#[trigger] s[i]).suggestions.len() > 0,
    ensures
        all_capped(merge_overlaps(s), m),
        forall|i: int|
            0 <= i < merge_overlaps(s).len() ==> (#[trigger] merge_overlaps(
                s,
            )[i]).suggestions.len() > 0,
    decreases s.len(),
{
    if s.len() > 0 {
        let rest = s.drop_first();
        assert forall|i: int| 0 <= i < rest.len() implies (#[trigger] rest[i]).suggestions.len()
            > 0 && rest[i].suggestions.len() <= m by {
            assert(rest[i] == s[i + 1]);
        }
        lemma_merge_capped(rest, m);
        lemma_merge_front_capped(s[0], merge_overlaps(rest), m);
        lemma_merge_front_nonempty(s[0], merge_overlaps(rest));
    }
}

/// Resolving never gives an annotation more suggestions than the most that
/// any of its inputs has.
pub proof fn lemma_resolved_capped(s: Seq<AnnotationView>, text: Seq<char>, m: int)
    requires
        all_fit(s, text),
        all_capped(s, m),
    ensures
        all_capped(resolved(s), m),
{
    lemma_sort_capped(s, m);
    lemma_sort_fits(s, text);
    let t = sort_by_start(s);
    assert forall|i: int| 0 <= i < t.len() implies (#[trigger] t[i]).suggestions.len() > 0 by {
        assert(fits(t[i], text));
    }
    lemma_merge_capped(t, m);
    assert(resolved(s) == merge_overlaps(t));
}

} // verus!
