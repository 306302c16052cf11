//! Tolerant matching of observed block descriptions against expectations.
//!
//! Both names are case-folded. The expected identifier then loses a leading
//! namespace (`minecraft:`) and its `_` separators. The observed name
//! matches when it contains that normal form, or does once its own `_` are
//! removed, or when the normal form contains the observed name as it is. This
//! accepts namespace prefixes and decorated renderings such as
//! `Block { kind: Stone }`; it accepts as well any name that merely occurs
//! inside an unrelated one: that false positive is a known and accepted risk.

use vstd::prelude::*;
use crate::text::{
    after_first, after_first_exec, chars_of, contains, contains_exec, lower_of, lowercase,
    push_char, push_str, without, without_exec,
};

verus! {

/// A case-folded expected identifier without its namespace: what follows the
/// first `:`, or all of it when there is none.
pub open spec fn strip_namespace(e: Seq<char>) -> Seq<char> {
    match after_first(e, seq![':']) {
        Some(rest) => rest,
        None => e,
    }
}

/// The normal form of a case-folded expected identifier: no namespace and no
/// `_` separators.
pub open spec fn expected_form(e: Seq<char>) -> Seq<char> {
    without(strip_namespace(e), '_')
}

/// Whether a case-folded observed name matches a case-folded expected
/// identifier.
pub open spec fn folded_ids_match(actual: Seq<char>, expected: Seq<char>) -> bool {
    let x = expected_form(expected);
    contains(actual, x) || contains(without(actual, '_'), x) || contains(x, actual)
}

/// Whether an observed block description matches an expected identifier,
/// ignoring case.
pub open spec fn ids_match(actual: Seq<char>, expected: Seq<char>) -> bool {
    folded_ids_match(lower_of(actual), lower_of(expected))
}

/// Matching of case-folded names; see [`block_matches`].
pub fn matches_folded(actual: &str, expected: &str) -> (r: bool)
    ensures
        r == folded_ids_match(actual@, expected@),
{
    let a = chars_of(actual);
    let e = chars_of(expected);
    let colon: Vec<char> = vec![':'];
    assert(colon@ =~= seq![':']);
    let bare = match after_first_exec(&e, &colon) {
        Some(rest) => rest,
        None => e,
    };
    let x = without_exec(&bare, '_');
    contains_exec(&a, &x) || contains_exec(&without_exec(&a, '_'), &x) || contains_exec(&x, &a)
}

/// Whether the observed description `actual` names the block `expected`,
/// ignoring case, the expected namespace and `_` separators.
pub fn block_matches(actual: &str, expected: &str) -> (r: bool)
    ensures
        r == ids_match(actual@, expected@),
{
    let a = lowercase(actual);
    let e = lowercase(expected);
    matches_folded(a.as_str(), e.as_str())
}

/// Matching does not see case: names that fold to the same text match alike.
pub proof fn lemma_match_ignores_case(a1: Seq<char>, a2: Seq<char>, e1: Seq<char>, e2: Seq<char>)
    requires
        lower_of(a1) == lower_of(a2),
        lower_of(e1) == lower_of(e2),
    ensures
        ids_match(a1, e1) == ids_match(a2, e2),
{
}

/// The three renderings of a block-state property that are accepted:
/// `name: value`, `name: "value"` and `name: _value`.
pub open spec fn property_patterns(name: Seq<char>, value: Seq<char>) -> Seq<Seq<char>> {
    seq![
        name + seq![':', ' '] + value,
        name + seq![':', ' ', '"'] + value + seq!['"'],
        name + seq![':', ' ', '_'] + value,
    ]
}

/// Whether a case-folded state description holds one of the case-folded
/// patterns.
pub open spec fn holds_any(actual: Seq<char>, patterns: Seq<Seq<char>>) -> bool {
    exists|i: int| 0 <= i < patterns.len() && contains(actual, #[trigger] patterns[i])
}

/// Whether the raw state description `actual` shows property `name` with
/// `value`, ignoring case.
pub open spec fn property_holds(actual: Seq<char>, name: Seq<char>, value: Seq<char>) -> bool {
    holds_any(
        lower_of(actual),
        property_patterns(name, value).map_values(|p: Seq<char>| lower_of(p)),
    )
}

/// The accepted renderings of property `name` with `value`, in the order of
/// [`property_patterns`].
pub fn property_pattern_strings(name: &str, value: &str) -> (r: Vec<String>)
    ensures
        r@.len() == 3,
        forall|i: int| 0 <= i < 3 ==> #[trigger] r@[i]@ == property_patterns(name@, value@)[i],
{
    let mut plain = String::from_str(name);
    push_char(&mut plain, ':');
    push_char(&mut plain, ' ');
    push_str(&mut plain, value);
    let mut quoted = String::from_str(name);
    push_char(&mut quoted, ':');
    push_char(&mut quoted, ' ');
    push_char(&mut quoted, '"');
    push_str(&mut quoted, value);
    push_char(&mut quoted, '"');
    let mut underscored = String::from_str(name);
    push_char(&mut underscored, ':');
    push_char(&mut underscored, ' ');
    push_char(&mut underscored, '_');
    push_str(&mut underscored, value);
    let ghost ps = property_patterns(name@, value@);
    assert(plain@ =~= ps[0]);
    assert(quoted@ =~= ps[1]);
    assert(underscored@ =~= ps[2]);
    let r = vec![plain, quoted, underscored];
    r
}

/// Whether the case-folded description holds one of the case-folded patterns.
pub fn holds_any_folded(actual: &str, patterns: &Vec<String>) -> (r: bool)
    ensures
        r == holds_any(actual@, patterns@.map_values(|p: String| p@)),
{
    let ghost pv = patterns@.map_values(|p: String| p@);
    let a = chars_of(actual);
    let mut i: usize = 0;
    while i < patterns.len()
        invariant
            i <= patterns.len(),
            a@ == actual@,
            pv == patterns@.map_values(|p: String| p@),
            forall|k: int| 0 <= k < i ==> !contains(actual@, #[trigger] pv[k]),
        decreases patterns.len() - i,
    {
        let p = chars_of(patterns[i].as_str());
        if contains_exec(&a, &p) {
            assert(contains(actual@, pv[i as int]));
            return true;
        }
        i = i + 1;
    }
    false
}

/// Whether the raw state description `actual` shows property `name` with
/// `value`, in one of the accepted renderings, ignoring case.
pub fn property_matches(actual: &str, name: &str, value: &str) -> (r: bool)
    ensures
        r == property_holds(actual@, name@, value@),
{
    let a = lowercase(actual);
    let ps = property_pattern_strings(name, value);
    let mut folded: Vec<String> = Vec::new();
    let mut i: usize = 0;
    while i < ps.len()
        invariant
            i <= ps.len(),
            ps@.len() == 3,
            forall|k: int| 0 <= k < 3 ==> #[trigger] ps@[k]@ == property_patterns(name@, value@)[k],
            folded@.len() == i,
            forall|k: int| 0 <= k < i ==> #[trigger] folded@[k]@ == lower_of(ps@[k]@),
        decreases ps.len() - i,
    {
        folded.push(lowercase(ps[i].as_str()));
        i = i + 1;
    }
    let r = holds_any_folded(a.as_str(), &folded);
    assert(folded@.map_values(|p: String| p@) =~= property_patterns(name@, value@).map_values(
        |p: Seq<char>| lower_of(p),
    ));
    r
}

} // verus!
