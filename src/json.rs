//! Reading the analysis provider's JSON answer into raw issues.
use vstd::prelude::*;
use vstd::string::*;
use serde_json::Value;
use crate::issue::{
    AnnotationView, GrammarError, Options, RawIssue, RawIssueView, actionable, normalized_views,
    lemma_normalized_capped, raw_view, raw_views, views,
};
use crate::render::Voltaire;
use crate::resolve::{all_fit, forced, lemma_resolved_capped, resolved, HouseRule};

verus! {

#[verifier::external_type_specification]
#[verifier::external_body]
pub struct ExValue(serde_json::Value);

/// The string that a JSON value holds, if it is a string.
pub uninterp spec fn json_str(v: serde_json::Value) -> Option<Seq<char>>;

/// The integer that a JSON value holds, if it is one that fits in `i64`.
pub uninterp spec fn json_i64(v: serde_json::Value) -> Option<i64>;

/// The items that a JSON value holds, if it is an array.
pub uninterp spec fn json_array(v: serde_json::Value) -> Option<Seq<serde_json::Value>>;

/// The member of a JSON object under `key`, if there is one.
pub uninterp spec fn json_member(v: serde_json::Value, key: Seq<char>) -> Option<
    serde_json::Value,
>;

/// Relies on serde_json::Value::as_str: the string of a string value.
pub assume_specification[ serde_json::Value::as_str ](v: &serde_json::Value) -> (r: Option<&str>)
    ensures
        r is Some <==> json_str(*v) is Some,
        r is Some ==> r->0@ == json_str(*v)->0,
;

/// Relies on serde_json::Value::as_i64: the integer of a number value that
/// fits in `i64`.
pub assume_specification[ serde_json::Value::as_i64 ](v: &serde_json::Value) -> (r: Option<i64>)
    ensures
        r == json_i64(*v),
;

/// Relies on serde_json::Value::as_array: the items of an array value.
pub assume_specification[ serde_json::Value::as_array ](v: &serde_json::Value) -> (r: Option<
    &Vec<serde_json::Value>,
>)
    ensures
        r is Some <==> json_array(*v) is Some,
        r is Some ==> r->0@ == json_array(*v)->0,
;

/// Relies on serde_json::Value::get: the member of an object under `key`, if
/// there is one.
#[verifier::external_body]
fn member<'a>(v: &'a Value, key: &str) -> (r: Option<&'a Value>)
    ensures
        r is Some <==> json_member(*v, key@) is Some,
        r is Some ==> *r->0 == json_member(*v, key@)->0,
{
    v.get(key)
}

/// The string member of `v` under `key`, if there is one.
pub open spec fn member_str_of(v: Value, key: Seq<char>) -> Option<Seq<char>> {
    match json_member(v, key) {
        Some(m) => json_str(m),
        None => None,
    }
}

/// The integer member of `v` under `key`, if there is one.
pub open spec fn member_i64_of(v: Value, key: Seq<char>) -> Option<i64> {
    match json_member(v, key) {
        Some(m) => json_i64(m),
        None => None,
    }
}

/// The items of the array member of `v` under `key`; none if there is no such
/// array.
pub open spec fn member_items_of(v: Value, key: Seq<char>) -> Seq<Value> {
    match json_member(v, key) {
        Some(m) => match json_array(m) {
            Some(items) => items,
            None => Seq::empty(),
        },
        None => Seq::empty(),
    }
}

/// The string `value` of each replacement, in order; replacements without one
/// are skipped.
pub open spec fn candidates_of(items: Seq<Value>) -> Seq<Seq<char>>
    decreases items.len(),
{
    if items.len() == 0 {
        Seq::empty()
    } else {
        let before = candidates_of(items.drop_last());
        match member_str_of(items.last(), "value"@) {
            Some(s) => before.push(s),
            None => before,
        }
    }
}

/// The raw issue that one entry of the provider's `matches` describes.
pub open spec fn raw_of(error: Value) -> RawIssueView {
    RawIssueView {
        message: member_str_of(error, "message"@),
        offset: member_i64_of(error, "offset"@),
        length: member_i64_of(error, "length"@),
        candidates: candidates_of(member_items_of(error, "replacements"@)),
    }
}

/// The raw issues of the provider's answer: one per item of its `matches`
/// array, none if there is no such array.
pub open spec fn matches_of(analysis: Value) -> Seq<RawIssueView> {
    member_items_of(analysis, "matches"@).map_values(|e: Value| raw_of(e))
}

fn member_str(v: &Value, key: &str) -> (r: Option<String>)
    ensures
        r is Some <==> member_str_of(*v, key@) is Some,
        r is Some ==> r->0@ == member_str_of(*v, key@)->0,
{
    match member(v, key) {
        Some(m) => match m.as_str() {
            Some(s) => Some(String::from_str(s)),
            None => None,
        },
        None => None,
    }
}

fn member_i64(v: &Value, key: &str) -> (r: Option<i64>)
    ensures
        r == member_i64_of(*v, key@),
{
    match member(v, key) {
        Some(m) => m.as_i64(),
        None => None,
    }
}

/// The raw issue that one entry of the provider's `matches` describes: its
/// `message`, `offset` and `length`, and the string `value` of each of its
/// `replacements`, in order.
pub fn raw_issue(error: &Value) -> (r: RawIssue)
    ensures
        r@ == raw_of(*error),
{
    let message = member_str(error, "message");
    let offset = member_i64(error, "offset");
    let length = member_i64(error, "length");
    let mut candidates: Vec<String> = Vec::new();
    let ghost items_all = member_items_of(*error, "replacements"@);
    match member(error, "replacements") {
        Some(m) => match m.as_array() {
            Some(items) => {
                let mut i: usize = 0;
                while i < items.len()
                    invariant
                        i <= items@.len(),
                        items@ == items_all,
                        candidates@.map_values(|s: String| s@) == candidates_of(
                            items@.take(i as int),
                        ),
                    decreases items@.len() - i,
                {
                    let ghost before = candidates@;
                    proof {
                        assert(items@.take(i + 1).drop_last() =~= items@.take(i as int));
                        assert(items@.take(i + 1).last() == items@[i as int]);
                    }
                    match member_str(&items[i], "value") {
                        Some(s) => {
                            candidates.push(s);
                            assert(candidates@.map_values(|s: String| s@) =~= before.map_values(
                                |s: String| s@,
                            ).push(s@));
                        },
                        None => {},
                    }
                    i = i + 1;
                }
                proof {
                    assert(items@.take(i as int) =~= items@);
                }
            },
            None => {
                assert(candidates@.map_values(|s: String| s@) =~= Seq::<Seq<char>>::empty());
            },
        },
        None => {
            assert(candidates@.map_values(|s: String| s@) =~= Seq::<Seq<char>>::empty());
        },
    }
    let r = RawIssue { message, offset, length, candidates };
    proof {
        assert(r@.message == raw_of(*error).message);
    }
    r
}

impl GrammarError {
    /// The annotation that one entry of the provider's answer becomes, if it
    /// is actionable.
    pub fn from_json(error: &Value, options: &Options) -> (r: Option<GrammarError>)
        ensures
            r is Some <==> actionable(
                raw_of(*error),
                options.text@.len() as int,
                options.number as int,
            ),
            r is Some ==> r->0@ == raw_view(raw_of(*error), *options) && r->0.sentence
                == options.text,
    {
        let raw = raw_issue(error);
        GrammarError::from_raw(raw, options)
    }
}

impl Voltaire {
    /// The text of `options` with the annotations of the provider's answer,
    /// normalized and resolved together with those that `rules` force.
    pub fn from_analysis_with_rules(
        analysis: Value,
        options: &Options,
        rules: &Vec<HouseRule>,
    ) -> (r: Voltaire)
        ensures
            r.wf(),
            r.sentence == options.text,
            r.options == *options,
            views(r.errors@) == resolved(
                forced(options.text@, rules@) + normalized_views(matches_of(analysis), *options),
            ),
    {
        let mut raws: Vec<RawIssue> = Vec::new();
        let ghost items_all = member_items_of(analysis, "matches"@);
        match member(&analysis, "matches") {
            Some(m) => match m.as_array() {
                Some(items) => {
                    let mut i: usize = 0;
                    while i < items.len()
                        invariant
                            i <= items@.len(),
                            items@ == items_all,
                            raw_views(raws@) == items@.take(i as int).map_values(
                                |e: Value| raw_of(e),
                            ),
                        decreases items@.len() - i,
                    {
                        let ghost before = raws@;
                        let raw = raw_issue(&items[i]);
                        raws.push(raw);
                        proof {
                            assert(raw_views(raws@) =~= raw_views(before).push(raw@));
                            assert(items@.take(i + 1).map_values(|e: Value| raw_of(e))
                                =~= items@.take(i as int).map_values(|e: Value| raw_of(e)).push(
                                raw_of(items@[i as int]),
                            ));
                        }
                        i = i + 1;
                    }
                    proof {
                        assert(items@.take(i as int) =~= items@);
                    }
                },
                None => {
                    assert(raw_views(raws@) =~= matches_of(analysis));
                },
            },
            None => {
                assert(raw_views(raws@) =~= matches_of(analysis));
            },
        }
        let copy = Options {
            text: options.text.clone(),
            number: options.number,
            verbose: options.verbose,
        };
        Voltaire::from_raw_issues(raws, copy, rules)
    }

    /// The text of `options` with the annotations of the provider's answer,
    /// normalized and resolved.
    pub fn from_analysis(analysis: Value, options: &Options) -> (r: Voltaire)
        ensures
            r.wf(),
            r.sentence == options.text,
            r.options == *options,
            views(r.errors@) == resolved(normalized_views(matches_of(analysis), *options)),
            forall|i: int|
                0 <= i < r.errors@.len() ==> (#[trigger] r.errors@[i]).suggestions@.len()
                    <= options.number,
    {
        let rules: Vec<HouseRule> = Vec::new();
        let r = Voltaire::from_analysis_with_rules(analysis, options, &rules);
        proof {
            assert(forced(options.text@, rules@) =~= Seq::<AnnotationView>::empty());
            assert(forced(options.text@, rules@) + normalized_views(matches_of(analysis), *options)
                =~= normalized_views(matches_of(analysis), *options));
            let s = normalized_views(matches_of(analysis), *options);
            lemma_normalized_capped(matches_of(analysis), *options);
            assert(all_fit(s, options.text@));
            lemma_resolved_capped(s, options.text@, options.number as int);
            assert forall|i: int| 0 <= i < r.errors@.len() implies (#[trigger] r.errors@[
                i
            ]).suggestions@.len() <= options.number by {
                assert(views(r.errors@)[i] == r.errors@[i]@);
            }
        }
        r
    }
}

} // verus!
