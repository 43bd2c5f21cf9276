//! Forced combinations: rules that reserve a share of the output for
//! options with given values.
//!
//! A rule is a list of constraints. Each constraint names a layer folder,
//! either alone or as a main folder with a sub-folder, and a value. An option
//! is seen through its path: the folder it lies in, the folder above that one,
//! and the name of its file in front of the weight marker.

use crate::text::{
    before_marker, chars_of, copy_range, pieces, same_text, split_pieces, starts_with, strip_marker,
    texts,
};
use vstd::prelude::*;

verus! {

/// The folder, or pair of folders, that a constraint speaks of.
#[allow(non_snake_case)]
#[derive(Debug, Clone, PartialEq)]
pub enum Layer {
    Simple(String),
    Complex { mainLayer: String, subLayer: String },
}

/// One constraint of a rule: the options of `layer` must have `value`.
#[derive(Debug, Clone, PartialEq)]
pub struct ForcedCombo {
    pub layer: Layer,
    pub value: String,
}

/// A rule: its constraints and the percentage of the output that it reserves.
#[derive(Debug, Clone, PartialEq)]
pub struct ForcedCombinations {
    pub combo: Vec<ForcedCombo>,
    pub percentage: u8,
}

/// What a [`Layer`] says, as plain sequences of characters.
pub enum LayerRef {
    Simple(Seq<char>),
    Complex { main: Seq<char>, sub: Seq<char> },
}

/// What a [`ForcedCombo`] says.
pub struct Constraint {
    pub layer: LayerRef,
    pub value: Seq<char>,
}

/// What a [`ForcedCombinations`] says.
pub struct Rule {
    pub constraints: Seq<Constraint>,
    pub percentage: nat,
}

impl View for Layer {
    type V = LayerRef;

    open spec fn view(&self) -> LayerRef {
        match *self {
            Layer::Simple(name) => LayerRef::Simple(name@),
            Layer::Complex { mainLayer, subLayer } => LayerRef::Complex {
                main: mainLayer@,
                sub: subLayer@,
            },
        }
    }
}

impl View for ForcedCombo {
    type V = Constraint;

    open spec fn view(&self) -> Constraint {
        Constraint { layer: self.layer@, value: self.value@ }
    }
}

impl View for ForcedCombinations {
    type V = Rule;

    open spec fn view(&self) -> Rule {
        Rule { constraints: constraints_of(self.combo@), percentage: self.percentage as nat }
    }
}

/// The constraints that a list of [`ForcedCombo`] holds.
pub open spec fn constraints_of(combo: Seq<ForcedCombo>) -> Seq<Constraint> {
    combo.map_values(|c: ForcedCombo| c@)
}

/// Whether a piece of a path names a folder: it is neither empty nor `.`.
pub open spec fn is_folder_piece(piece: Seq<char>) -> bool {
    piece.len() > 0 && piece != seq!['.']
}

/// [`is_folder_piece`] as a predicate value.
pub open spec fn folder_pred() -> spec_fn(Seq<char>) -> bool {
    |piece: Seq<char>| is_folder_piece(piece)
}

/// The folders that lead to the file of `path`, outermost first: every piece
/// in front of the last one that names a folder.
pub open spec fn folders(path: Seq<char>) -> Seq<Seq<char>> {
    pieces(path).drop_last().filter(folder_pred())
}

/// The name of the folder `depth` levels above the file of `path` (1 is the
/// folder that holds it). Where `path` has no such folder, or has `..` there,
/// the answer is `fallback`.
pub open spec fn folder_above(path: Seq<char>, depth: int, fallback: Seq<char>) -> Seq<char> {
    let above = folders(path);
    if 1 <= depth <= above.len() && above[above.len() - depth] != seq!['.', '.'] {
        above[above.len() - depth]
    } else {
        fallback
    }
}

/// The value of the option at `path`: the name of its file in front of the
/// first `#`.
pub open spec fn option_value(path: Seq<char>) -> Seq<char> {
    before_marker(pieces(path).last())
}

/// The folder by which an option is looked up among the constraints: the
/// folder two levels up, unless that is the base folder, in which case it is
/// the folder that holds the file.
pub open spec fn governing_folder(path: Seq<char>, base: Seq<char>) -> Seq<char> {
    if folder_above(path, 2, base) == base {
        folder_above(path, 1, base)
    } else {
        folder_above(path, 2, base)
    }
}

/// Whether a constraint speaks of `folder`.
pub open spec fn names_folder(layer: LayerRef, folder: Seq<char>) -> bool {
    match layer {
        LayerRef::Simple(name) => name == folder,
        LayerRef::Complex { main, sub } => main == folder || sub == folder,
    }
}

/// Position of the first constraint at or after `from` that speaks of
/// `folder`; the length of the list when none does.
pub open spec fn first_naming(constraints: Seq<Constraint>, folder: Seq<char>, from: int) -> int
    decreases constraints.len() - from,
{
    if from >= constraints.len() {
        constraints.len() as int
    } else if names_folder(constraints[from].layer, folder) {
        from
    } else {
        first_naming(constraints, folder, from + 1)
    }
}

/// Whether the option at `path` meets one constraint.
///
/// A constraint on a single folder asks that the option lie directly in that
/// folder and that its value begin with the constraint's value. A constraint
/// on a main folder and a sub-folder asks that the option lie in a folder
/// whose name begins with the sub-folder's, directly under the main folder,
/// and, unless the constraint's value is `*`, that the option's value begin
/// with it.
pub open spec fn satisfies(constraint: Constraint, path: Seq<char>, base: Seq<char>) -> bool {
    let parent = folder_above(path, 1, base);
    let grandparent = folder_above(path, 2, base);
    match constraint.layer {
        LayerRef::Simple(name) => constraint.value.is_prefix_of(option_value(path)) && parent
            == name,
        LayerRef::Complex { main, sub } => {
            &&& grandparent == main
            &&& sub.is_prefix_of(parent)
            &&& (constraint.value == seq!['*'] || constraint.value.is_prefix_of(
                option_value(path),
            ))
        },
    }
}

/// Whether a rule takes the option at `path`: the first constraint that
/// speaks of the option's governing folder decides, and an option of which no
/// constraint speaks is taken.
pub open spec fn included(constraints: Seq<Constraint>, path: Seq<char>, base: Seq<char>) -> bool {
    let k = first_naming(constraints, governing_folder(path, base), 0);
    k >= constraints.len() || satisfies(constraints[k], path, base)
}

/// A rule of one constraint on a single folder decides the options that lie
/// directly in that folder, where the folder lies directly in the base
/// folder: it takes those whose value begins with the constraint's value,
/// and leaves the others.
pub proof fn lemma_simple_rule_decides(
    name: Seq<char>,
    value: Seq<char>,
    path: Seq<char>,
    base: Seq<char>,
)
    requires
        folder_above(path, 1, base) == name,
        folder_above(path, 2, base) == base,
    ensures
        included(seq![Constraint { layer: LayerRef::Simple(name), value }], path, base)
            <==> value.is_prefix_of(option_value(path)),
{
    let rule = seq![Constraint { layer: LayerRef::Simple(name), value }];
    assert(first_naming(rule, governing_folder(path, base), 0) == 0);
}

/// A rule of one constraint, on a main folder and a sub-folder with the
/// value `*`, takes every option that lies directly under the main folder in
/// a folder whose name begins with the sub-folder's, whatever its value.
pub proof fn lemma_wildcard_takes_all(
    main: Seq<char>,
    sub: Seq<char>,
    path: Seq<char>,
    base: Seq<char>,
)
    requires
        folder_above(path, 2, base) == main,
        sub.is_prefix_of(folder_above(path, 1, base)),
    ensures
        included(
            seq![Constraint { layer: LayerRef::Complex { main, sub }, value: seq!['*'] }],
            path,
            base,
        ),
{
    let rule = seq![Constraint { layer: LayerRef::Complex { main, sub }, value: seq!['*'] }];
    let folder = governing_folder(path, base);
    assert(first_naming(rule, folder, 1) == 1);
}

/// A rule takes every option of which none of its constraints speaks.
pub proof fn lemma_unnamed_is_taken(constraints: Seq<Constraint>, path: Seq<char>, base: Seq<char>)
    requires
        forall|k: int|
            0 <= k < constraints.len() ==> !names_folder(
                (#[trigger] constraints[k]).layer,
                governing_folder(path, base),
            ),
    ensures
        included(constraints, path, base),
{
    lemma_first_naming_none(constraints, governing_folder(path, base), 0);
}

/// Where no constraint from `from` on speaks of a folder, `first_naming`
/// runs to the end of the list.
pub proof fn lemma_first_naming_none(constraints: Seq<Constraint>, folder: Seq<char>, from: int)
    requires
        0 <= from,
        forall|k: int|
            from <= k < constraints.len() ==> !names_folder(
                (#[trigger] constraints[k]).layer,
                folder,
            ),
    ensures
        first_naming(constraints, folder, from) >= constraints.len(),
    decreases constraints.len() - from,
{
    if from < constraints.len() {
        lemma_first_naming_none(constraints, folder, from + 1);
    }
}

/// The folder names of a path that has been cut into pieces.
fn folder_names(parts: &Vec<Vec<char>>) -> (names: Vec<Vec<char>>)
    requires
        parts.len() >= 1,
    ensures
        texts(names@) == texts(parts@).drop_last().filter(folder_pred()),
{
    let mut names: Vec<Vec<char>> = Vec::new();
    let last: usize = parts.len() - 1;
    let mut i: usize = 0;
    proof {
        assert(texts(parts@).take(0).filter(folder_pred()) == Seq::<Seq<char>>::empty()) by {
            reveal(Seq::filter);
        }
    }
    while i < last
        invariant
            i <= last,
            last == parts.len() - 1,
            texts(names@) == texts(parts@).take(i as int).filter(folder_pred()),
        decreases last - i,
    {
        let piece = &parts[i];
        let ghost seen = texts(parts@).take(i as int);
        proof {
            assert(texts(parts@).take(i + 1) == seen.push(piece@));
            seen.lemma_filter_push(piece@, folder_pred());
        }
        let is_dot = piece.len() == 1 && piece[0] == '.';
        proof {
            if is_dot {
                assert(piece@ =~= seq!['.']);
            }
        }
        if piece.len() > 0 && !is_dot {
            names.push(copy_range(piece, 0, piece.len()));
            assert(piece@.subrange(0, piece@.len() as int) == piece@);
        }
        i += 1;
    }
    names
}

/// Picks the folder name `depth` levels up out of `names`, or `fallback`.
fn name_above<'a>(names: &'a Vec<Vec<char>>, depth: usize, fallback: &'a Vec<char>) -> (name:
    &'a Vec<char>)
    requires
        depth >= 1,
    ensures
        name@ == (if depth <= names.len() && texts(names@)[names.len() - depth] != seq!['.', '.'] {
            texts(names@)[names.len() - depth]
        } else {
            fallback@
        }),
{
    if depth <= names.len() {
        let candidate = &names[names.len() - depth];
        let is_dotdot = candidate.len() == 2 && candidate[0] == '.' && candidate[1] == '.';
        proof {
            if is_dotdot {
                assert(candidate@ =~= seq!['.', '.']);
            }
        }
        if is_dotdot {
            fallback
        } else {
            candidate
        }
    } else {
        fallback
    }
}

/// Whether `layer` speaks of `folder`.
fn layer_names(layer: &Layer, folder: &Vec<char>) -> (yes: bool)
    ensures
        yes == names_folder(layer@, folder@),
{
    match layer {
        Layer::Simple(name) => same_text(&chars_of(name.as_str()), folder),
        Layer::Complex { mainLayer, subLayer } => same_text(&chars_of(mainLayer.as_str()), folder)
            || same_text(&chars_of(subLayer.as_str()), folder),
    }
}

/// Decides whether a rule takes the option at `file_path`.
///
/// `forced_combinations` are the rule's constraints and `base_path` is the
/// name of the folder that holds the layer folders.
pub fn should_include_file(
    forced_combinations: &[ForcedCombo],
    file_path: &str,
    base_path: &str,
) -> (take: bool)
    ensures
        take == included(constraints_of(forced_combinations@), file_path@, base_path@),
{
    let path = chars_of(file_path);
    let base = chars_of(base_path);
    let parts = split_pieces(&path);
    let names = folder_names(&parts);
    let parent = name_above(&names, 1, &base);
    let grandparent = name_above(&names, 2, &base);
    let value = strip_marker(&parts[parts.len() - 1]);
    let target = if same_text(grandparent, &base) {
        parent
    } else {
        grandparent
    };
    let ghost constraints = constraints_of(forced_combinations@);
    let mut k: usize = 0;
    while k < forced_combinations.len()
        invariant
            k <= forced_combinations.len(),
            constraints == constraints_of(forced_combinations@),
            target@ == governing_folder(file_path@, base_path@),
            first_naming(constraints, target@, 0) == first_naming(constraints, target@, k as int),
            value@ == option_value(file_path@),
            parent@ == folder_above(file_path@, 1, base_path@),
            grandparent@ == folder_above(file_path@, 2, base_path@),
        decreases forced_combinations.len() - k,
    {
        let constraint = &forced_combinations[k];
        if layer_names(&constraint.layer, target) {
            let wanted = chars_of(constraint.value.as_str());
            return match &constraint.layer {
                Layer::Simple(name) => starts_with(&value, &wanted) && same_text(
                    parent,
                    &chars_of(name.as_str()),
                ),
                Layer::Complex { mainLayer, subLayer } => {
                    let is_wildcard = wanted.len() == 1 && wanted[0] == '*';
                    proof {
                        if is_wildcard {
                            assert(wanted@ =~= seq!['*']);
                        }
                    }
                    same_text(grandparent, &chars_of(mainLayer.as_str())) && starts_with(
                        parent,
                        &chars_of(subLayer.as_str()),
                    ) && (is_wildcard || starts_with(&value, &wanted))
                },
            };
        }
        k += 1;
    }
    true
}

/// The options that a rule takes, as a predicate value.
pub open spec fn taken_pred(constraints: Seq<Constraint>, base: Seq<char>) -> spec_fn(
    Seq<char>,
) -> bool {
    |path: Seq<char>| included(constraints, path, base)
}

/// The options that a rule leaves, as a predicate value.
pub open spec fn left_pred(constraints: Seq<Constraint>, base: Seq<char>) -> spec_fn(
    Seq<char>,
) -> bool {
    |path: Seq<char>| !included(constraints, path, base)
}

/// The options of a layer that a rule takes, in their order.
pub open spec fn matched_options(
    layer: Seq<Seq<char>>,
    constraints: Seq<Constraint>,
    base: Seq<char>,
) -> Seq<Seq<char>> {
    layer.filter(taken_pred(constraints, base))
}

/// The options of a layer that a rule leaves, in their order.
pub open spec fn unmatched_options(
    layer: Seq<Seq<char>>,
    constraints: Seq<Constraint>,
    base: Seq<char>,
) -> Seq<Seq<char>> {
    layer.filter(left_pred(constraints, base))
}

/// For every layer, the options that a rule takes.
pub open spec fn matched_layers(
    layers: Seq<Seq<Seq<char>>>,
    constraints: Seq<Constraint>,
    base: Seq<char>,
) -> Seq<Seq<Seq<char>>> {
    layers.map_values(|layer: Seq<Seq<char>>| matched_options(layer, constraints, base))
}

/// For every layer, the options that a rule leaves.
pub open spec fn unmatched_layers(
    layers: Seq<Seq<Seq<char>>>,
    constraints: Seq<Constraint>,
    base: Seq<char>,
) -> Seq<Seq<Seq<char>>> {
    layers.map_values(|layer: Seq<Seq<char>>| unmatched_options(layer, constraints, base))
}

/// The layers that remain after a rule: where the rule has left options of a
/// layer, those; where it has left none, or has no such layer, what remained
/// before.
pub open spec fn merged(
    remaining: Seq<Seq<Seq<char>>>,
    unmatched: Seq<Seq<Seq<char>>>,
) -> Seq<Seq<Seq<char>>> {
    Seq::new(
        remaining.len(),
        |i: int|
            if i < unmatched.len() && unmatched[i].len() > 0 {
                unmatched[i]
            } else {
                remaining[i]
            },
    )
}

/// A rule takes or leaves every option of a layer: what it takes and what it
/// leaves are together as many as the layer holds.
pub proof fn lemma_partition_sizes(
    layer: Seq<Seq<char>>,
    constraints: Seq<Constraint>,
    base: Seq<char>,
)
    ensures
        matched_options(layer, constraints, base).len() + unmatched_options(
            layer,
            constraints,
            base,
        ).len() == layer.len(),
    decreases layer.len(),
{
    reveal(Seq::filter);
    if layer.len() > 0 {
        lemma_partition_sizes(layer.drop_last(), constraints, base);
    }
}

/// The share of the output that a percentage reserves, rounded down.
pub open spec fn quota_of(total_supply: nat, percentage: nat) -> nat {
    total_supply * percentage / 100
}

/// The sum of the percentages of the first `upto` rules.
pub open spec fn percentage_sum(rules: Seq<ForcedCombinations>, upto: int) -> nat
    decreases upto,
{
    if upto <= 0 {
        0
    } else {
        percentage_sum(rules, upto - 1) + rules[upto - 1].percentage as nat
    }
}

/// The sum of the quotas of the first `upto` rules.
pub open spec fn quota_sum(rules: Seq<ForcedCombinations>, total_supply: nat, upto: int) -> nat
    decreases upto,
{
    if upto <= 0 {
        0
    } else {
        quota_sum(rules, total_supply, upto - 1) + quota_of(
            total_supply,
            rules[upto - 1].percentage as nat,
        )
    }
}

/// The quotas of rules whose percentages add up to `p` add up to no more
/// than the share of `p`: rounding down only takes away.
pub proof fn lemma_quota_sum_bound(rules: Seq<ForcedCombinations>, total_supply: nat, upto: int)
    requires
        0 <= upto <= rules.len(),
    ensures
        quota_sum(rules, total_supply, upto) <= quota_of(
            total_supply,
            percentage_sum(rules, upto),
        ),
    decreases upto,
{
    if upto > 0 {
        lemma_quota_sum_bound(rules, total_supply, upto - 1);
        let before = percentage_sum(rules, upto - 1);
        let here = rules[upto - 1].percentage as nat;
        assert(total_supply * (before + here) == total_supply * before + total_supply * here)
            by (nonlinear_arith);
    }
}

/// Where the percentages add up to no more than 100, the quotas add up to
/// no more than the whole.
pub proof fn lemma_quotas_within_total(rules: Seq<ForcedCombinations>, total_supply: nat, upto: int)
    requires
        0 <= upto <= rules.len(),
        percentage_sum(rules, upto) <= 100,
    ensures
        quota_sum(rules, total_supply, upto) <= total_supply,
{
    lemma_quota_sum_bound(rules, total_supply, upto);
    let sum = percentage_sum(rules, upto);
    assert(total_supply * sum <= total_supply * 100) by (nonlinear_arith)
        requires
            sum <= 100,
    ;
}

/// The percentages of a front part of the rules add up to no more than
/// those of all.
pub proof fn lemma_percentage_sum_monotone(rules: Seq<ForcedCombinations>, i: int, j: int)
    requires
        0 <= i <= j,
    ensures
        percentage_sum(rules, i) <= percentage_sum(rules, j),
    decreases j - i,
{
    if i < j {
        lemma_percentage_sum_monotone(rules, i, j - 1);
    }
}

/// Splits the options of a layer into those that a rule takes and those
/// that it leaves.
pub fn partition_layer(rule: &[ForcedCombo], layer: &Vec<String>, base_path: &str) -> (parts: (
    Vec<String>,
    Vec<String>,
))
    ensures
        parts.0.deep_view() == matched_options(
            layer.deep_view(),
            constraints_of(rule@),
            base_path@,
        ),
        parts.1.deep_view() == unmatched_options(
            layer.deep_view(),
            constraints_of(rule@),
            base_path@,
        ),
{
    let ghost options = layer.deep_view();
    let ghost taken = taken_pred(constraints_of(rule@), base_path@);
    let ghost left = left_pred(constraints_of(rule@), base_path@);
    let mut included: Vec<String> = Vec::new();
    let mut not_included: Vec<String> = Vec::new();
    let mut i: usize = 0;
    proof {
        reveal(Seq::filter);
    }
    while i < layer.len()
        invariant
            i <= layer.len(),
            options == layer.deep_view(),
            taken == taken_pred(constraints_of(rule@), base_path@),
            left == left_pred(constraints_of(rule@), base_path@),
            included.deep_view() == options.take(i as int).filter(taken),
            not_included.deep_view() == options.take(i as int).filter(left),
        decreases layer.len() - i,
    {
        let ghost seen = options.take(i as int);
        proof {
            assert(options.take(i + 1) == seen.push(layer@[i as int]@));
            seen.lemma_filter_push(layer@[i as int]@, taken);
            seen.lemma_filter_push(layer@[i as int]@, left);
        }
        if should_include_file(rule, layer[i].as_str(), base_path) {
            included.push(layer[i].clone());
        } else {
            not_included.push(layer[i].clone());
        }
        i += 1;
    }
    assert(options.take(layer.len() as int) == options);
    (included, not_included)
}

/// Splits every layer by a rule: first the layers of what the rule takes,
/// then the layers of what it leaves.
pub fn partition_layers(rule: &[ForcedCombo], layers: &Vec<Vec<String>>, base_path: &str) -> (parts:
    (Vec<Vec<String>>, Vec<Vec<String>>))
    ensures
        parts.0.deep_view() == matched_layers(
            layers.deep_view(),
            constraints_of(rule@),
            base_path@,
        ),
        parts.1.deep_view() == unmatched_layers(
            layers.deep_view(),
            constraints_of(rule@),
            base_path@,
        ),
{
    let ghost all = layers.deep_view();
    let mut included_layers: Vec<Vec<String>> = Vec::new();
    let mut not_included_layers: Vec<Vec<String>> = Vec::new();
    let mut i: usize = 0;
    while i < layers.len()
        invariant
            i <= layers.len(),
            all == layers.deep_view(),
            included_layers.deep_view() == matched_layers(
                all,
                constraints_of(rule@),
                base_path@,
            ).take(i as int),
            not_included_layers.deep_view() == unmatched_layers(
                all,
                constraints_of(rule@),
                base_path@,
            ).take(i as int),
        decreases layers.len() - i,
    {
        let (included, not_included) = partition_layer(rule, &layers[i], base_path);
        let ghost taken_before = included_layers.deep_view();
        let ghost left_before = not_included_layers.deep_view();
        included_layers.push(included);
        not_included_layers.push(not_included);
        assert(included_layers.deep_view() == taken_before.push(included.deep_view()));
        assert(not_included_layers.deep_view() == left_before.push(not_included.deep_view()));
        i += 1;
    }
    (included_layers, not_included_layers)
}

/// A copy of a layer.
pub fn copy_layer(layer: &Vec<String>) -> (copy: Vec<String>)
    ensures
        copy.deep_view() == layer.deep_view(),
{
    let mut copy: Vec<String> = Vec::new();
    let mut i: usize = 0;
    while i < layer.len()
        invariant
            i <= layer.len(),
            copy.deep_view() == layer.deep_view().take(i as int),
        decreases layer.len() - i,
    {
        let ghost before = copy.deep_view();
        copy.push(layer[i].clone());
        assert(copy.deep_view() == before.push(layer@[i as int]@));
        i += 1;
    }
    copy
}

/// Carries what a rule has left into the layers that remain for the rules
/// after it: a layer of which the rule has left options is replaced by them,
/// any other layer stays as it is.
pub fn merge_remaining(remaining: &mut Vec<Vec<String>>, not_included: &Vec<Vec<String>>)
    ensures
        final(remaining).deep_view() == merged(
            old(remaining).deep_view(),
            not_included.deep_view(),
        ),
{
    let ghost before = remaining.deep_view();
    let ghost left = not_included.deep_view();
    let mut i: usize = 0;
    while i < remaining.len() && i < not_included.len()
        invariant
            i <= remaining.len(),
            i <= not_included.len(),
            left == not_included.deep_view(),
            remaining.len() == before.len(),
            forall|k: int| 0 <= k < i ==> remaining.deep_view()[k] == merged(before, left)[k],
            forall|k: int| i <= k < before.len() ==> remaining.deep_view()[k] == before[k],
        decreases remaining.len() - i,
    {
        if not_included[i].len() > 0 {
            let copy = copy_layer(&not_included[i]);
            remaining.set(i, copy);
        }
        i += 1;
    }
}

/// The share of `total_supply` that a percentage reserves, rounded down.
pub fn quota(total_supply: u32, percentage: u8) -> (share: u32)
    requires
        percentage <= 100,
    ensures
        share == quota_of(total_supply as nat, percentage as nat),
{
    assert(total_supply * percentage <= total_supply * 100) by (nonlinear_arith)
        requires
            percentage <= 100,
    ;
    let product: u64 = total_supply as u64 * percentage as u64;
    (product / 100) as u32
}

} // verus!
