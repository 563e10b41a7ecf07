//! Category reference data and the longest-prefix matcher: a label is
//! categorized by the rule whose pattern is the longest prefix of the label;
//! among rules of that same maximal pattern, the lexicographically least
//! category code wins, a documented deterministic tie-break.

use vstd::prelude::*;

use crate::text::{lex_le, lemma_lex_le_total, lemma_lex_le_trans};

verus! {

/// A spending category: a code and a display label.
pub struct Category {
    pub code: Vec<u8>,
    pub label: Vec<u8>,
}

/// A prefix rule mapping a label prefix to a category code.
pub struct CategoryPattern {
    pub pattern: Vec<u8>,
    pub category_code: Vec<u8>,
}

/// Mathematical image of a `Category`.
pub struct CategoryData {
    pub code: Seq<u8>,
    pub label: Seq<u8>,
}

/// Mathematical image of a `CategoryPattern`.
pub struct CategoryPatternData {
    pub pattern: Seq<u8>,
    pub category_code: Seq<u8>,
}

impl View for Category {
    type V = CategoryData;

    open spec fn view(&self) -> CategoryData {
        CategoryData { code: self.code@, label: self.label@ }
    }
}

impl DeepView for Category {
    type V = CategoryData;

    open spec fn deep_view(&self) -> CategoryData {
        self@
    }
}

impl View for CategoryPattern {
    type V = CategoryPatternData;

    open spec fn view(&self) -> CategoryPatternData {
        CategoryPatternData { pattern: self.pattern@, category_code: self.category_code@ }
    }
}

impl DeepView for CategoryPattern {
    type V = CategoryPatternData;

    open spec fn deep_view(&self) -> CategoryPatternData {
        self@
    }
}

/// The winning rule for `label`, scanning the rules left to right: a rule
/// wins when its pattern is a prefix of the label and is longer than the
/// best so far, or equally long with a lexicographically smaller category
/// code.
pub open spec fn spec_best_rule(label: Seq<u8>, pats: Seq<CategoryPatternData>) -> Option<
    CategoryPatternData,
>
    decreases pats.len(),
{
    if pats.len() == 0 {
        None
    } else {
        let rest = spec_best_rule(label, pats.drop_last());
        let p = pats.last();
        if p.pattern.is_prefix_of(label) {
            match rest {
                Option::None => Some(p),
                Option::Some(b) => {
                    if p.pattern.len() > b.pattern.len() {
                        Some(p)
                    } else if p.pattern.len() == b.pattern.len() && !lex_le(
                        b.category_code,
                        p.category_code,
                    ) {
                        Some(p)
                    } else {
                        rest
                    }
                },
            }
        } else {
            rest
        }
    }
}

/// The category code the longest-prefix match resolves `label` to, or `None`
/// when no pattern is a prefix of the label.
pub open spec fn spec_best_category(label: Seq<u8>, pats: Seq<CategoryPatternData>) -> Option<
    Seq<u8>,
> {
    match spec_best_rule(label, pats) {
        Option::None => None,
        Option::Some(b) => Some(b.category_code),
    }
}

/// Longest-prefix correctness. When no rule's pattern is a prefix of the
/// label the resolved category is null; otherwise the winning rule is one of
/// the rules, its pattern is a prefix of the label of maximal length among
/// matching rules, and its category code is lexicographically least among
/// the rules of that maximal pattern length.
pub proof fn lemma_best_rule_correct(label: Seq<u8>, pats: Seq<CategoryPatternData>)
    ensures
        match spec_best_rule(label, pats) {
            Option::None => forall|i: int|
                0 <= i < pats.len() ==> !pats[i].pattern.is_prefix_of(label),
            Option::Some(b) => {
                &&& exists|i: int| 0 <= i < pats.len() && pats[i] == b
                &&& b.pattern.is_prefix_of(label)
                &&& forall|i: int|
                    0 <= i < pats.len() && pats[i].pattern.is_prefix_of(label)
                        ==> pats[i].pattern.len() <= b.pattern.len()
                &&& forall|i: int|
                    0 <= i < pats.len() && pats[i].pattern.is_prefix_of(label)
                        && pats[i].pattern.len() == b.pattern.len() ==> lex_le(
                        b.category_code,
                        pats[i].category_code,
                    )
            },
        },
    decreases pats.len(),
{
    if pats.len() == 0 {
    } else {
        lemma_best_rule_correct(label, pats.drop_last());
        let rest = spec_best_rule(label, pats.drop_last());
        let p = pats.last();
        assert(forall|i: int| 0 <= i < pats.len() - 1 ==> pats[i] == pats.drop_last()[i]);
        match spec_best_rule(label, pats) {
            Option::None => {
            },
            Option::Some(b) => {
                // b is an element of pats
                if p.pattern.is_prefix_of(label) && (rest is None
                    || (rest is Some && b != rest->Some_0)) {
                    assert(pats[pats.len() - 1] == b);
                } else {
                    let wit = choose|i: int|
                        0 <= i < pats.drop_last().len() && pats.drop_last()[i] == b;
                    assert(pats[wit] == b);
                }
                // b's code is lex-least among matches of maximal length
                lemma_lex_le_total(b.category_code, b.category_code);
                assert forall|i: int|
                    0 <= i < pats.len() && pats[i].pattern.is_prefix_of(label)
                        && pats[i].pattern.len() == b.pattern.len() implies lex_le(
                    b.category_code,
                    pats[i].category_code,
                ) by {
                    if i == pats.len() - 1 {
                        if b != p {
                            let old_b = rest->Some_0;
                            assert(b == old_b);
                            assert(lex_le(b.category_code, p.category_code));
                        }
                    } else {
                        assert(pats.drop_last()[i] == pats[i]);
                        assert(pats.drop_last()[i].pattern.is_prefix_of(label));
                        match rest {
                            Option::None => {
                                assert(!pats.drop_last()[i].pattern.is_prefix_of(label));
                            },
                            Option::Some(old_b) => {
                                assert(pats.drop_last()[i].pattern.len() <= old_b.pattern.len());
                                if b == old_b {
                                    assert(lex_le(
                                        old_b.category_code,
                                        pats.drop_last()[i].category_code,
                                    ));
                                } else {
                                    assert(b == p);
                                    assert(p.pattern.len() == old_b.pattern.len());
                                    assert(!lex_le(old_b.category_code, p.category_code));
                                    lemma_lex_le_total(old_b.category_code, p.category_code);
                                    assert(lex_le(
                                        old_b.category_code,
                                        pats.drop_last()[i].category_code,
                                    ));
                                    lemma_lex_le_trans(
                                        p.category_code,
                                        old_b.category_code,
                                        pats[i].category_code,
                                    );
                                }
                            },
                        }
                    }
                }
            },
        }
    }
}

/// Resolves `label` against the rule set, as `spec_best_category` describes.
pub fn best_category(label: &Vec<u8>, patterns: &Vec<CategoryPattern>) -> (r: Option<Vec<u8>>)
    ensures
        match r {
            Option::None => spec_best_category(label@, patterns.deep_view()) is None,
            Option::Some(c) => spec_best_category(label@, patterns.deep_view()) == Some(c@),
        },
{
    let ghost pv = patterns.deep_view();
    let mut best: Option<usize> = None;
    let mut i: usize = 0;
    proof {
        assert(pv.take(0) =~= Seq::<CategoryPatternData>::empty());
    }
    while i < patterns.len()
        invariant
            i <= patterns.len(),
            pv == patterns.deep_view(),
            pv.len() == patterns.len(),
            forall|k: int| 0 <= k < pv.len() ==> pv[k] == #[trigger] patterns@[k]@,
            match best {
                Option::None => spec_best_rule(label@, pv.take(i as int)) is None,
                Option::Some(bi) => bi < i && spec_best_rule(label@, pv.take(i as int))
                    == Some(pv[bi as int]),
            },
        decreases patterns.len() - i,
    {
        proof {
            assert(pv.take(i + 1).drop_last() =~= pv.take(i as int));
            assert(pv.take(i + 1).last() == pv[i as int]);
        }
        let p = &patterns[i];
        if crate::text::is_prefix_bytes(&p.pattern, label) {
            match best {
                Option::None => {
                    best = Some(i);
                },
                Option::Some(bi) => {
                    let bp = &patterns[bi];
                    if p.pattern.len() > bp.pattern.len() {
                        best = Some(i);
                    } else if p.pattern.len() == bp.pattern.len() && !crate::text::lex_le_bytes(
                        &bp.category_code,
                        &p.category_code,
                    ) {
                        best = Some(i);
                    }
                },
            }
        }
        i += 1;
    }
    proof {
        assert(pv.take(patterns.len() as int) =~= pv);
    }
    match best {
        Option::None => None,
        Option::Some(bi) => {
            let code = crate::text::copy_bytes(&patterns[bi].category_code);
            Some(code)
        },
    }
}

} // verus!
