//! Which style a stack of labels gets from a table of style rules.
//!
//! A rule applies to a stack if its labels occur in the stack in their
//! order, not necessarily next to each other. Among the rules that apply,
//! the one whose labels sit deepest in the stack is the most specific, and
//! the more specific rule overrides the less specific one attribute by
//! attribute.

use vstd::prelude::*;
use crate::style::merged;
use crate::style::unset;
use crate::style::Color;
use crate::style::Style;

verus! {

/// A table of style rules: each rule is a sequence of labels and the style
/// that it gives.
pub type Rules = Vec<(Vec<String>, Style)>;

/// A rule as a mathematical value.
pub struct RuleView {
    pub pattern: Seq<Seq<char>>,
    pub style: Style,
}

/// Labels as sequences of characters.
pub open spec fn labels_view(labels: Seq<String>) -> Seq<Seq<char>> {
    labels.map_values(|l: String| l@)
}

/// A rule as a mathematical value.
pub open spec fn rule_view(rule: (Vec<String>, Style)) -> RuleView {
    RuleView { pattern: labels_view(rule.0@), style: rule.1 }
}

/// A table of rules as mathematical values.
pub open spec fn rules_view(rules: Seq<(Vec<String>, Style)>) -> Seq<RuleView> {
    rules.map_values(|r: (Vec<String>, Style)| rule_view(r))
}

/// Positions as mathematical integers.
pub open spec fn ints(indices: Seq<usize>) -> Seq<int> {
    indices.map_values(|i: usize| i as int)
}

/// The first position at or after `from` at which `stack` holds `label`,
/// or the length of `stack` if there is none.
pub open spec fn first_from(stack: Seq<Seq<char>>, label: Seq<char>, from: int) -> int
    decreases stack.len() - from,
{
    if from < 0 || from >= stack.len() {
        stack.len() as int
    } else if stack[from] == label {
        from
    } else {
        first_from(stack, label, from + 1)
    }
}

/// The first position after those in `found`.
pub open spec fn next_free(found: Seq<int>) -> int {
    if found.len() == 0 {
        0
    } else {
        found.last() + 1
    }
}

/// The positions at which the first `p` labels of `pattern` are found in
/// `stack`, each label at the earliest position after the one before; or
/// `None` if one of them is not found.
pub open spec fn matched_prefix(pattern: Seq<Seq<char>>, stack: Seq<Seq<char>>, p: int) -> Option<
    Seq<int>,
>
    decreases p,
{
    if p <= 0 {
        Some(Seq::empty())
    } else {
        match matched_prefix(pattern, stack, p - 1) {
            None => None,
            Some(found) => {
                let at = first_from(stack, pattern[p - 1], next_free(found));
                if at < stack.len() {
                    Some(found.push(at))
                } else {
                    None
                }
            },
        }
    }
}

/// The positions at which the labels of `pattern` are found in `stack`.
pub open spec fn matched_indices(pattern: Seq<Seq<char>>, stack: Seq<Seq<char>>) -> Option<
    Seq<int>,
> {
    matched_prefix(pattern, stack, pattern.len() as int)
}

/// Whether a rule with the labels `pattern` applies to `stack`.
pub open spec fn rule_matches(pattern: Seq<Seq<char>>, stack: Seq<Seq<char>>) -> bool {
    matched_indices(pattern, stack) is Some
}

/// How specific a rule that applies is: the positions of its labels in the
/// stack, the deepest first.
pub open spec fn specificity(pattern: Seq<Seq<char>>, stack: Seq<Seq<char>>) -> Seq<int>
    recommends
        rule_matches(pattern, stack),
{
    matched_indices(pattern, stack).unwrap().reverse()
}

/// Whether the positions `at` show `pattern` as a subsequence of `stack`:
/// one position for each label, the positions ascending, each holding its
/// label.
pub open spec fn embeds(pattern: Seq<Seq<char>>, stack: Seq<Seq<char>>, at: Seq<int>) -> bool {
    &&& at.len() == pattern.len()
    &&& forall|k: int|
        0 <= k < at.len() ==> 0 <= #[trigger] at[k] < stack.len() && stack[at[k]] == pattern[k]
    &&& forall|j: int, k: int| 0 <= j < k < at.len() ==> #[trigger] at[j] < #[trigger] at[k]
}

/// The first position from `from` on that holds `label` holds it, and no
/// position between the two does.
pub proof fn lemma_first_from(stack: Seq<Seq<char>>, label: Seq<char>, from: int)
    requires
        0 <= from,
    ensures
        from <= first_from(stack, label, from) || first_from(stack, label, from) == stack.len(),
        first_from(stack, label, from) <= stack.len(),
        first_from(stack, label, from) < stack.len() ==> stack[first_from(stack, label, from)]
            == label,
        forall|i: int| from <= i < first_from(stack, label, from) ==> #[trigger] stack[i] != label,
    decreases stack.len() - from,
{
    if from < stack.len() && stack[from] != label {
        lemma_first_from(stack, label, from + 1);
    }
}

/// The positions matched for the first `p` labels show these labels as a
/// subsequence of the stack.
pub proof fn lemma_matched_prefix_embeds(pattern: Seq<Seq<char>>, stack: Seq<Seq<char>>, p: int)
    requires
        0 <= p <= pattern.len(),
        matched_prefix(pattern, stack, p) is Some,
    ensures
        embeds(pattern.take(p), stack, matched_prefix(pattern, stack, p).unwrap()),
    decreases p,
{
    if p > 0 {
        lemma_matched_prefix_embeds(pattern, stack, p - 1);
        let found = matched_prefix(pattern, stack, p - 1).unwrap();
        lemma_first_from(stack, pattern[p - 1], next_free(found));
    }
}

/// Whatever positions show a pattern as a subsequence, the labels are
/// matched, each no later than these positions have it.
pub proof fn lemma_matched_prefix_least(
    pattern: Seq<Seq<char>>,
    stack: Seq<Seq<char>>,
    at: Seq<int>,
    p: int,
)
    requires
        embeds(pattern, stack, at),
        0 <= p <= pattern.len(),
    ensures
        matched_prefix(pattern, stack, p) is Some,
        matched_prefix(pattern, stack, p).unwrap().len() == p,
        p > 0 ==> matched_prefix(pattern, stack, p).unwrap()[p - 1] <= at[p - 1],
        0 <= next_free(matched_prefix(pattern, stack, p).unwrap()),
    decreases p,
{
    if p > 0 {
        lemma_matched_prefix_least(pattern, stack, at, p - 1);
        let found = matched_prefix(pattern, stack, p - 1).unwrap();
        let from = next_free(found);
        if p > 1 {
            assert(at[p - 2] < at[p - 1]);
        }
        assert(from <= at[p - 1]);
        lemma_first_from(stack, pattern[p - 1], from);
        assert(stack[at[p - 1]] == pattern[p - 1]);
    }
}

/// A rule applies to a stack exactly if its labels are a subsequence of
/// the stack.
pub proof fn lemma_matches_iff_subsequence(pattern: Seq<Seq<char>>, stack: Seq<Seq<char>>)
    ensures
        rule_matches(pattern, stack) <==> exists|at: Seq<int>| embeds(pattern, stack, at),
{
    if rule_matches(pattern, stack) {
        lemma_matched_prefix_embeds(pattern, stack, pattern.len() as int);
        assert(pattern.take(pattern.len() as int) =~= pattern);
        assert(embeds(pattern, stack, matched_indices(pattern, stack).unwrap()));
    }
    if exists|at: Seq<int>| embeds(pattern, stack, at) {
        let at = choose|at: Seq<int>| embeds(pattern, stack, at);
        lemma_matched_prefix_least(pattern, stack, at, pattern.len() as int);
    }
}

/// Lexicographic order: the first position at which the two differ decides,
/// and a proper prefix comes first.
pub open spec fn lex_lt(a: Seq<int>, b: Seq<int>) -> bool
    decreases a.len(),
{
    if b.len() == 0 {
        false
    } else if a.len() == 0 {
        true
    } else if a[0] == b[0] {
        lex_lt(a.drop_first(), b.drop_first())
    } else {
        a[0] < b[0]
    }
}

/// No key comes before itself.
pub proof fn lemma_lex_irreflexive(a: Seq<int>)
    ensures
        !lex_lt(a, a),
    decreases a.len(),
{
    if a.len() > 0 {
        lemma_lex_irreflexive(a.drop_first());
    }
}

/// Of two keys at most one comes before the other.
pub proof fn lemma_lex_asymmetric(a: Seq<int>, b: Seq<int>)
    requires
        lex_lt(a, b),
    ensures
        !lex_lt(b, a),
    decreases a.len(),
{
    if a.len() > 0 && b.len() > 0 && a[0] == b[0] {
        lemma_lex_asymmetric(a.drop_first(), b.drop_first());
    }
}

/// The order of keys is transitive.
pub proof fn lemma_lex_transitive(a: Seq<int>, b: Seq<int>, c: Seq<int>)
    requires
        lex_lt(a, b),
        lex_lt(b, c),
    ensures
        lex_lt(a, c),
    decreases a.len(),
{
    if a.len() > 0 && b.len() > 0 && c.len() > 0 && a[0] == b[0] && b[0] == c[0] {
        lemma_lex_transitive(a.drop_first(), b.drop_first(), c.drop_first());
    }
}

/// Of two different keys one comes before the other.
pub proof fn lemma_lex_total(a: Seq<int>, b: Seq<int>)
    ensures
        lex_lt(a, b) || a == b || lex_lt(b, a),
    decreases a.len(),
{
    if a.len() > 0 && b.len() > 0 {
        if a[0] == b[0] {
            lemma_lex_total(a.drop_first(), b.drop_first());
            if a.drop_first() == b.drop_first() {
                assert(a =~= seq![a[0]] + a.drop_first());
                assert(b =~= seq![b[0]] + b.drop_first());
            }
        }
    } else if a.len() == 0 && b.len() == 0 {
        assert(a =~= b);
    }
}

/// Whether the key `a` comes before the key `b` in lexicographic order.
pub fn key_less(a: &Vec<usize>, b: &Vec<usize>) -> (less: bool)
    ensures
        less == lex_lt(ints(a@), ints(b@)),
{
    let ghost x = ints(a@);
    let ghost y = ints(b@);
    let mut i: usize = 0;
    proof {
        assert(x.skip(0) =~= x);
        assert(y.skip(0) =~= y);
    }
    while i < a.len() && i < b.len()
        invariant
            0 <= i <= a@.len(),
            i <= b@.len(),
            x == ints(a@),
            y == ints(b@),
            lex_lt(x, y) == lex_lt(x.skip(i as int), y.skip(i as int)),
        decreases a@.len() - i,
    {
        proof {
            assert(x.skip(i as int)[0] == a@[i as int]);
            assert(y.skip(i as int)[0] == b@[i as int]);
            assert(x.skip(i as int).drop_first() =~= x.skip(i + 1));
            assert(y.skip(i as int).drop_first() =~= y.skip(i + 1));
        }
        if a[i] != b[i] {
            return a[i] < b[i];
        }
        i = i + 1;
    }
    proof {
        assert(x.skip(i as int).len() == a@.len() - i);
        assert(y.skip(i as int).len() == b@.len() - i);
    }
    i < b.len()
}

/// The key of a rule with the labels `pattern` on the stack `labels`, if
/// the rule applies.
pub fn match_rule(pattern: &Vec<String>, labels: &Vec<String>) -> (key: Option<Vec<usize>>)
    ensures
        key is Some <==> rule_matches(labels_view(pattern@), labels_view(labels@)),
        key is Some ==> ints(key.unwrap()@) == specificity(
            labels_view(pattern@),
            labels_view(labels@),
        ),
{
    let ghost want = labels_view(pattern@);
    let ghost stack = labels_view(labels@);
    let mut matched_indices: Vec<usize> = Vec::new();
    let mut next: usize = 0;
    let mut p: usize = 0;
    proof {
        assert(ints(matched_indices@) =~= Seq::<int>::empty());
    }
    while p < pattern.len()
        invariant
            0 <= p <= pattern@.len(),
            want == labels_view(pattern@),
            stack == labels_view(labels@),
            matched_prefix(want, stack, p as int) == Some(ints(matched_indices@)),
            next == next_free(ints(matched_indices@)),
            next <= labels@.len(),
            matched_indices@.len() == p,
        decreases pattern@.len() - p,
    {
        let required_label = &pattern[p];
        let ghost from = next as int;
        let mut found = false;
        while next < labels.len() && !found
            invariant
                from <= next <= labels@.len(),
                stack == labels_view(labels@),
                required_label@ == want[p as int],
                0 <= p < want.len(),
                !found ==> first_from(stack, want[p as int], from) == first_from(
                    stack,
                    want[p as int],
                    next as int,
                ),
                found ==> next > from && first_from(stack, want[p as int], from) == next - 1,
            decreases labels@.len() - next + (if found { 0int } else { 1int }),
        {
            proof {
                assert(stack[next as int] == labels@[next as int]@);
            }
            if labels[next] == *required_label {
                found = true;
            }
            next = next + 1;
        }
        if !found {
            proof {
                assert(first_from(stack, want[p as int], from) == stack.len());
                assert(matched_prefix(want, stack, p + 1) == None::<Seq<int>>);
                lemma_no_match_stays(want, stack, p + 1, want.len() as int);
            }
            return None;
        }
        let ghost before = ints(matched_indices@);
        matched_indices.push(next - 1);
        proof {
            assert(ints(matched_indices@) =~= before.push(next - 1));
        }
        p = p + 1;
    }
    let mut key: Vec<usize> = Vec::new();
    let mut i: usize = matched_indices.len();
    while i > 0
        invariant
            0 <= i <= matched_indices@.len(),
            key@.len() == matched_indices@.len() - i,
            forall|k: int|
                0 <= k < key@.len() ==> #[trigger] key@[k] == matched_indices@[
                    matched_indices@.len() - 1 - k],
        decreases i,
    {
        i = i - 1;
        key.push(matched_indices[i]);
    }
    proof {
        assert(ints(key@) =~= ints(matched_indices@).reverse());
    }
    Some(key)
}

/// Once a label of the pattern is not found, no longer prefix is matched.
pub proof fn lemma_no_match_stays(pattern: Seq<Seq<char>>, stack: Seq<Seq<char>>, p: int, q: int)
    requires
        p <= q,
        matched_prefix(pattern, stack, p) is None,
    ensures
        matched_prefix(pattern, stack, q) is None,
    decreases q - p,
{
    if p < q {
        lemma_no_match_stays(pattern, stack, p, q - 1);
    }
}

/// One of the attributes of a style.
pub enum Field {
    Fg,
    Bg,
    Bold,
    Italic,
    Underline,
}

/// The value of an attribute: a color or a flag.
pub enum Attr {
    Paint(Color),
    Flag(bool),
}

/// A color attribute as the value of an attribute.
pub open spec fn paint(color: Option<Color>) -> Option<Attr> {
    match color {
        Some(c) => Some(Attr::Paint(c)),
        None => None,
    }
}

/// A flag attribute as the value of an attribute.
pub open spec fn flag(value: Option<bool>) -> Option<Attr> {
    match value {
        Some(b) => Some(Attr::Flag(b)),
        None => None,
    }
}

/// What `style` sets `field` to, if it sets it.
pub open spec fn attr(style: Style, field: Field) -> Option<Attr> {
    match field {
        Field::Fg => paint(style.fg),
        Field::Bg => paint(style.bg),
        Field::Bold => flag(style.bold),
        Field::Italic => flag(style.italic),
        Field::Underline => flag(style.underline),
    }
}

/// Two styles that agree on every attribute are the same style.
pub proof fn lemma_style_by_attrs(a: Style, b: Style)
    requires
        forall|field: Field| attr(a, field) == attr(b, field),
    ensures
        a == b,
{
    assert(attr(a, Field::Fg) == attr(b, Field::Fg));
    assert(attr(a, Field::Bg) == attr(b, Field::Bg));
    assert(attr(a, Field::Bold) == attr(b, Field::Bold));
    assert(attr(a, Field::Italic) == attr(b, Field::Italic));
    assert(attr(a, Field::Underline) == attr(b, Field::Underline));
}

/// Whether rule `i` overrides rule `j`, both applying to `stack`: `i` is
/// the more specific of the two, or they are equally specific and `i` is
/// the later one in the table.
pub open spec fn outranks(rules: Seq<RuleView>, stack: Seq<Seq<char>>, i: int, j: int) -> bool {
    let ki = specificity(rules[i].pattern, stack);
    let kj = specificity(rules[j].pattern, stack);
    lex_lt(kj, ki) || (kj == ki && j < i)
}

/// Of two different rules exactly one overrides the other.
pub proof fn lemma_outranks_total(rules: Seq<RuleView>, stack: Seq<Seq<char>>, i: int, j: int)
    requires
        i != j,
    ensures
        outranks(rules, stack, i, j) != outranks(rules, stack, j, i),
{
    let ki = specificity(rules[i].pattern, stack);
    let kj = specificity(rules[j].pattern, stack);
    lemma_lex_total(ki, kj);
    lemma_lex_irreflexive(ki);
    if lex_lt(ki, kj) {
        lemma_lex_asymmetric(ki, kj);
    }
    if lex_lt(kj, ki) {
        lemma_lex_asymmetric(kj, ki);
    }
}

/// A rule whose last label sits deeper in the stack overrides a rule whose
/// last label sits higher.
pub proof fn lemma_deeper_outranks(rules: Seq<RuleView>, stack: Seq<Seq<char>>, i: int, j: int)
    requires
        specificity(rules[i].pattern, stack).len() > 0,
        specificity(rules[j].pattern, stack).len() > 0,
        specificity(rules[j].pattern, stack)[0] < specificity(rules[i].pattern, stack)[0],
    ensures
        outranks(rules, stack, i, j),
        !outranks(rules, stack, j, i),
{
    lemma_lex_asymmetric(specificity(rules[j].pattern, stack), specificity(rules[i].pattern, stack));
}

/// Whether rule `i` applies to `stack` and sets `field`.
pub open spec fn sets_field(rules: Seq<RuleView>, stack: Seq<Seq<char>>, field: Field, i: int) -> bool {
    &&& 0 <= i < rules.len()
    &&& rule_matches(rules[i].pattern, stack)
    &&& attr(rules[i].style, field) is Some
}

/// Whether rule `i` decides `field`: it applies and sets the field, and it
/// overrides every other rule that does.
pub open spec fn prevails(rules: Seq<RuleView>, stack: Seq<Seq<char>>, field: Field, i: int) -> bool {
    &&& sets_field(rules, stack, field, i)
    &&& forall|j: int|
        j != i && #[trigger] sets_field(rules, stack, field, j) ==> outranks(rules, stack, i, j)
}

/// At most one rule decides a field.
pub proof fn lemma_prevails_unique(
    rules: Seq<RuleView>,
    stack: Seq<Seq<char>>,
    field: Field,
    i: int,
    j: int,
)
    requires
        prevails(rules, stack, field, i),
        prevails(rules, stack, field, j),
    ensures
        i == j,
{
    if i != j {
        lemma_outranks_total(rules, stack, i, j);
        assert(sets_field(rules, stack, field, j));
        assert(sets_field(rules, stack, field, i));
    }
}

/// What the rules give `field` on `stack`: what the rule that decides the
/// field sets it to, and nothing if no rule that applies sets it.
pub open spec fn resolved_attr(rules: Seq<RuleView>, stack: Seq<Seq<char>>, field: Field) -> Option<
    Attr,
> {
    if exists|i: int| prevails(rules, stack, field, i) {
        attr(rules[choose|i: int| prevails(rules, stack, field, i)].style, field)
    } else {
        None
    }
}

/// The color that the value of an attribute holds, if it holds one.
pub open spec fn as_paint(value: Option<Attr>) -> Option<Color> {
    match value {
        Some(Attr::Paint(c)) => Some(c),
        _ => None,
    }
}

/// The flag that the value of an attribute holds, if it holds one.
pub open spec fn as_flag(value: Option<Attr>) -> Option<bool> {
    match value {
        Some(Attr::Flag(b)) => Some(b),
        _ => None,
    }
}

/// The style that the rules give `stack`.
pub open spec fn resolved(rules: Seq<RuleView>, stack: Seq<Seq<char>>) -> Style {
    Style {
        fg: as_paint(resolved_attr(rules, stack, Field::Fg)),
        bg: as_paint(resolved_attr(rules, stack, Field::Bg)),
        bold: as_flag(resolved_attr(rules, stack, Field::Bold)),
        italic: as_flag(resolved_attr(rules, stack, Field::Italic)),
        underline: as_flag(resolved_attr(rules, stack, Field::Underline)),
    }
}

/// Every attribute of the resolved style is what the rules give it.
pub proof fn lemma_resolved_attr(rules: Seq<RuleView>, stack: Seq<Seq<char>>, field: Field)
    ensures
        attr(resolved(rules, stack), field) == resolved_attr(rules, stack, field),
{
}

/// Whether `order` lists the rules that apply to `stack`, each once, every
/// rule after the rules that it overrides.
pub open spec fn is_application_order(
    rules: Seq<RuleView>,
    stack: Seq<Seq<char>>,
    order: Seq<int>,
) -> bool {
    &&& forall|a: int|
        0 <= a < order.len() ==> 0 <= #[trigger] order[a] < rules.len() && rule_matches(
            rules[order[a]].pattern,
            stack,
        )
    &&& forall|i: int|
        0 <= i < rules.len() && #[trigger] rule_matches(rules[i].pattern, stack)
            ==> order.contains(i)
    &&& forall|a: int, b: int|
        0 <= a < b < order.len() ==> outranks(rules, stack, #[trigger] order[b], #[trigger] order[a])
}

/// The styles of the rules in `order`, merged one after the other into the
/// open style.
pub open spec fn merged_in_order(rules: Seq<RuleView>, order: Seq<int>) -> Style
    decreases order.len(),
{
    if order.len() == 0 {
        unset()
    } else {
        merged(merged_in_order(rules, order.drop_last()), rules[order.last()].style)
    }
}

/// The last position in `order` whose rule sets `field`, or -1.
pub open spec fn last_setting(rules: Seq<RuleView>, order: Seq<int>, field: Field) -> int
    decreases order.len(),
{
    if order.len() == 0 {
        -1
    } else if attr(rules[order.last()].style, field) is Some {
        order.len() - 1
    } else {
        last_setting(rules, order.drop_last(), field)
    }
}

/// Merging in order leaves every attribute as the last rule that sets it
/// has it.
pub proof fn lemma_merged_attr(rules: Seq<RuleView>, order: Seq<int>, field: Field)
    ensures
        ({
            let p = last_setting(rules, order, field);
            &&& -1 <= p < order.len()
            &&& forall|q: int| p < q < order.len() ==> attr(rules[#[trigger] order[q]].style, field) is None
            &&& p >= 0 ==> attr(rules[order[p]].style, field) is Some
            &&& p >= 0 ==> attr(merged_in_order(rules, order), field) == attr(
                rules[order[p]].style,
                field,
            )
            &&& p < 0 ==> attr(merged_in_order(rules, order), field) is None
        }),
    decreases order.len(),
{
    if order.len() > 0 {
        lemma_merged_attr(rules, order.drop_last(), field);
        let p = last_setting(rules, order, field);
        assert forall|q: int| p < q < order.len() implies attr(
            rules[#[trigger] order[q]].style,
            field,
        ) is None by {
            if q < order.len() - 1 {
                assert(order.drop_last()[q] == order[q]);
            }
        }
        if p >= 0 && p < order.len() - 1 {
            assert(order.drop_last()[p] == order[p]);
        }
    }
}

/// Merging the rules that apply, the less specific first, gives the
/// resolved style.
pub proof fn lemma_merged_in_order_resolves(
    rules: Seq<RuleView>,
    stack: Seq<Seq<char>>,
    order: Seq<int>,
)
    requires
        is_application_order(rules, stack, order),
    ensures
        merged_in_order(rules, order) == resolved(rules, stack),
{
    let style = merged_in_order(rules, order);
    assert forall|field: Field| attr(style, field) == attr(resolved(rules, stack), field) by {
        lemma_resolved_attr(rules, stack, field);
        lemma_merged_attr(rules, order, field);
        let p = last_setting(rules, order, field);
        if p >= 0 {
            let i = order[p];
            assert forall|j: int| j != i && #[trigger] sets_field(rules, stack, field, j) implies outranks(
                rules,
                stack,
                i,
                j,
            ) by {
                assert(order.contains(j));
                let q = choose|q: int| 0 <= q < order.len() && order[q] == j;
                assert(q <= p);
                assert(q < p);
            }
            assert(prevails(rules, stack, field, i));
            let chosen = choose|i: int| prevails(rules, stack, field, i);
            lemma_prevails_unique(rules, stack, field, i, chosen);
        } else {
            assert forall|i: int| !prevails(rules, stack, field, i) by {
                if sets_field(rules, stack, field, i) {
                    assert(order.contains(i));
                    let q = choose|q: int| 0 <= q < order.len() && order[q] == i;
                    assert(attr(rules[order[q]].style, field) is None);
                }
            }
        }
    }
    lemma_style_by_attrs(style, resolved(rules, stack));
}

/// Whether `entry` holds the place of a rule that applies to `stack`,
/// together with the key of that rule.
pub open spec fn is_match_of(
    rules: Seq<RuleView>,
    stack: Seq<Seq<char>>,
    entry: (usize, Vec<usize>),
) -> bool {
    &&& entry.0 < rules.len()
    &&& rule_matches(rules[entry.0 as int].pattern, stack)
    &&& ints(entry.1@) == specificity(rules[entry.0 as int].pattern, stack)
}

/// Whether the entry `x` is ordered before the entry `y`: by its key, and
/// by its place in the table where the keys are the same.
pub open spec fn entry_before(x: (usize, Vec<usize>), y: (usize, Vec<usize>)) -> bool {
    lex_lt(ints(x.1@), ints(y.1@)) || (ints(x.1@) == ints(y.1@) && x.0 < y.0)
}

/// Sorts rules that apply by their keys. Rules with the same key stay in
/// the order of the table.
fn sort_by_key(matched: Vec<(usize, Vec<usize>)>) -> (sorted: Vec<(usize, Vec<usize>)>)
    requires
        forall|a: int, b: int|
            0 <= a < b < matched@.len() ==> (#[trigger] matched@[a]).0 < (#[trigger] matched@[b]).0,
    ensures
        sorted@.len() == matched@.len(),
        forall|a: int, b: int|
            0 <= a < b < sorted@.len() ==> entry_before(#[trigger] sorted@[a], #[trigger] sorted@[b]),
        forall|k: int| 0 <= k < matched@.len() ==> sorted@.contains(#[trigger] matched@[k]),
        forall|a: int| 0 <= a < sorted@.len() ==> matched@.contains(#[trigger] sorted@[a]),
{
    let ghost all = matched@;
    let mut rest = matched;
    let mut sorted: Vec<(usize, Vec<usize>)> = Vec::new();
    while rest.len() > 0
        invariant
            rest@.len() <= all.len(),
            rest@ == all.take(rest@.len() as int),
            sorted@.len() == all.len() - rest@.len(),
            forall|a: int, b: int|
                0 <= a < b < all.len() ==> (#[trigger] all[a]).0 < (#[trigger] all[b]).0,
            forall|a: int, b: int|
                0 <= a < b < sorted@.len() ==> entry_before(
                    #[trigger] sorted@[a],
                    #[trigger] sorted@[b],
                ),
            forall|k: int| rest@.len() <= k < all.len() ==> sorted@.contains(#[trigger] all[k]),
            forall|a: int|
                0 <= a < sorted@.len() ==> exists|k: int|
                    rest@.len() <= k < all.len() && #[trigger] all[k] == #[trigger] sorted@[a],
        decreases rest@.len(),
    {
        let ghost n = rest@.len() - 1;
        let entry = rest.pop().unwrap();
        proof {
            assert(entry == all[n]);
            assert(rest@ =~= all.take(n));
        }
        let mut pos: usize = 0;
        while pos < sorted.len() && key_less(&sorted[pos].1, &entry.1)
            invariant
                0 <= pos <= sorted@.len(),
                forall|a: int|
                    0 <= a < pos ==> lex_lt(ints((#[trigger] sorted@[a]).1@), ints(entry.1@)),
            decreases sorted@.len() - pos,
        {
            pos = pos + 1;
        }
        let ghost was = sorted@;
        sorted.insert(pos, entry);
        proof {
            let now = sorted@;
            assert(now[pos as int] == entry);
            assert forall|a: int| 0 <= a < pos implies #[trigger] now[a] == was[a] by {}
            assert forall|b: int| pos < b < now.len() implies #[trigger] now[b] == was[b - 1] by {}
            assert forall|b: int| pos <= b < was.len() implies entry_before(
                entry,
                #[trigger] was[b],
            ) by {
                let k = choose|k: int| n < k < all.len() && #[trigger] all[k] == was[b];
                assert(all[n].0 < all[k].0);
                let ke = ints(entry.1@);
                let kp = ints(was[pos as int].1@);
                let kb = ints(was[b].1@);
                lemma_lex_total(ke, kp);
                if b > pos {
                    assert(entry_before(was[pos as int], was[b]));
                    if lex_lt(kp, kb) && lex_lt(ke, kp) {
                        lemma_lex_transitive(ke, kp, kb);
                    }
                }
            }
            assert forall|a: int, b: int| 0 <= a < b < now.len() implies entry_before(
                #[trigger] now[a],
                #[trigger] now[b],
            ) by {
                if b < pos {
                    assert(entry_before(was[a], was[b]));
                } else if b == pos {
                } else if a < pos {
                    assert(entry_before(was[a], was[b - 1]));
                } else if a == pos {
                    assert(entry_before(entry, was[b - 1]));
                } else {
                    assert(entry_before(was[a - 1], was[b - 1]));
                }
            }
            assert forall|k: int| n <= k < all.len() implies now.contains(#[trigger] all[k]) by {
                if k == n {
                    assert(now[pos as int] == all[k]);
                } else {
                    assert(was.contains(all[k]));
                    let a = choose|a: int| 0 <= a < was.len() && was[a] == all[k];
                    if a < pos {
                        assert(now[a] == all[k]);
                    } else {
                        assert(now[a + 1] == all[k]);
                    }
                }
            }
            assert forall|a: int| 0 <= a < now.len() implies exists|k: int|
                n <= k < all.len() && #[trigger] all[k] == #[trigger] now[a] by {
                if a == pos {
                    assert(all[n] == now[a]);
                } else if a < pos {
                    let k = choose|k: int| n < k < all.len() && #[trigger] all[k] == was[a];
                    assert(all[k] == now[a]);
                } else {
                    let k = choose|k: int| n < k < all.len() && #[trigger] all[k] == was[a - 1];
                    assert(all[k] == now[a]);
                }
            }
        }
    }
    proof {
        assert forall|a: int| 0 <= a < sorted@.len() implies all.contains(#[trigger] sorted@[a]) by {
            let k = choose|k: int| 0 <= k < all.len() && #[trigger] all[k] == sorted@[a];
            assert(all[k] == sorted@[a]);
        }
    }
    sorted
}

/// The style that `rules` give the stack `labels`: the styles of the rules
/// that apply, merged from the least specific to the most specific.
pub fn resolve(labels: &Vec<String>, rules: &Rules) -> (style: Style)
    ensures
        style == resolved(rules_view(rules@), labels_view(labels@)),
{
    let ghost table = rules_view(rules@);
    let ghost stack = labels_view(labels@);
    let mut matched_styles: Vec<(usize, Vec<usize>)> = Vec::new();
    let mut i: usize = 0;
    while i < rules.len()
        invariant
            0 <= i <= rules@.len(),
            table == rules_view(rules@),
            stack == labels_view(labels@),
            forall|a: int, b: int|
                0 <= a < b < matched_styles@.len() ==> (#[trigger] matched_styles@[a]).0 < (
                #[trigger] matched_styles@[b]).0,
            forall|a: int|
                0 <= a < matched_styles@.len() ==> is_match_of(
                    table,
                    stack,
                    #[trigger] matched_styles@[a],
                ) && matched_styles@[a].0 < i,
            forall|k: int|
                0 <= k < i && #[trigger] rule_matches(table[k].pattern, stack) ==> exists|a: int|
                    0 <= a < matched_styles@.len() && (#[trigger] matched_styles@[a]).0 == k,
        decreases rules@.len() - i,
    {
        proof {
            assert(table[i as int] == rule_view(rules@[i as int]));
        }
        let ghost was = matched_styles@;
        match match_rule(&rules[i].0, labels) {
            Some(key) => {
                matched_styles.push((i, key));
                proof {
                    assert forall|k: int|
                        0 <= k < i + 1 && #[trigger] rule_matches(
                            table[k].pattern,
                            stack,
                        ) implies exists|a: int|
                        0 <= a < matched_styles@.len() && (#[trigger] matched_styles@[a]).0
                            == k by {
                        if k == i {
                            assert(matched_styles@[was.len() as int].0 == k);
                        } else {
                            let a = choose|a: int| 0 <= a < was.len() && (#[trigger] was[a]).0 == k;
                            assert(matched_styles@[a].0 == k);
                        }
                    }
                }
            },
            None => {},
        }
        i = i + 1;
    }
    let ghost collected = matched_styles@;
    let sorted = sort_by_key(matched_styles);
    let ghost order = sorted@.map_values(|e: (usize, Vec<usize>)| e.0 as int);
    proof {
        assert forall|a: int| 0 <= a < sorted@.len() implies is_match_of(
            table,
            stack,
            #[trigger] sorted@[a],
        ) by {
            assert(collected.contains(sorted@[a]));
        }
        assert forall|k: int|
            0 <= k < table.len() && #[trigger] rule_matches(
                table[k].pattern,
                stack,
            ) implies order.contains(k) by {
            let a = choose|a: int| 0 <= a < collected.len() && (#[trigger] collected[a]).0 == k;
            assert(sorted@.contains(collected[a]));
            let b = choose|b: int| 0 <= b < sorted@.len() && sorted@[b] == collected[a];
            assert(order[b] == k);
        }
        assert forall|a: int, b: int| 0 <= a < b < order.len() implies outranks(
            table,
            stack,
            #[trigger] order[b],
            #[trigger] order[a],
        ) by {
            assert(entry_before(sorted@[a], sorted@[b]));
            assert(is_match_of(table, stack, sorted@[a]));
            assert(is_match_of(table, stack, sorted@[b]));
        }
        assert(is_application_order(table, stack, order));
    }
    let mut style = Style::default();
    let mut k: usize = 0;
    proof {
        assert(order.take(0) =~= Seq::<int>::empty());
    }
    while k < sorted.len()
        invariant
            0 <= k <= sorted@.len(),
            table == rules_view(rules@),
            order == sorted@.map_values(|e: (usize, Vec<usize>)| e.0 as int),
            forall|a: int| 0 <= a < sorted@.len() ==> (#[trigger] sorted@[a]).0 < rules@.len(),
            style == merged_in_order(table, order.take(k as int)),
        decreases sorted@.len() - k,
    {
        let index = sorted[k].0;
        proof {
            assert(order.take(k + 1).drop_last() =~= order.take(k as int));
            assert(order.take(k + 1).last() == index);
            assert(table[index as int] == rule_view(rules@[index as int]));
        }
        style.merge(&rules[index].1);
        k = k + 1;
    }
    proof {
        assert(order.take(k as int) =~= order);
        lemma_merged_in_order_resolves(table, stack, order);
    }
    style
}

} // verus!
