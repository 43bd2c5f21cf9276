//! Reconciling the layers that were found with the layers that were
//! configured.
//!
//! The configured list gives the order of the layers. The list that was found
//! comes in any order, and its names may carry a suffix that begins with `#`.
//! Both must hold the same names; the found list is then put in the order of
//! the configured one, each found name going to the configured name that is
//! nearest to it by edit distance.

use crate::error::{CustomError, Failure};
use crate::text::{
    before_marker, chars_of, decimal_digits, decimal_text, first_at_or_after,
    lemma_first_at_or_after, names, same_text, strip_marker, texts,
};
use vstd::prelude::*;
use vstd::string::{StrSliceExecFns, StringExecFns};

verus! {

/// The least of three numbers.
pub open spec fn least_of(a: nat, b: nat, c: nat) -> nat {
    if a <= b && a <= c {
        a
    } else if b <= c {
        b
    } else {
        c
    }
}

/// The edit distance of two texts: the least number of characters to insert,
/// delete or replace to turn one into the other.
pub open spec fn edit_distance(a: Seq<char>, b: Seq<char>) -> nat
    decreases a.len() + b.len(),
{
    if a.len() == 0 {
        b.len()
    } else if b.len() == 0 {
        a.len()
    } else {
        least_of(
            edit_distance(a.drop_last(), b.drop_last()) + if a.last() == b.last() {
                0nat
            } else {
                1nat
            },
            edit_distance(a.drop_last(), b) + 1,
            edit_distance(a, b.drop_last()) + 1,
        )
    }
}

/// `s` without the copies of `prefix` that it begins with.
pub open spec fn trim_prefixes(s: Seq<char>, prefix: Seq<char>) -> Seq<char>
    decreases s.len(),
{
    if prefix.len() > 0 && prefix.is_prefix_of(s) {
        trim_prefixes(s.skip(prefix.len() as int), prefix)
    } else {
        s
    }
}

/// Whether `index` is where the least score stands first. In an empty list
/// that is position 0.
pub open spec fn is_first_minimum(scores: Seq<nat>, index: int) -> bool {
    if scores.len() == 0 {
        index == 0
    } else {
        &&& 0 <= index < scores.len()
        &&& forall|j: int| 0 <= j < scores.len() ==> scores[index] <= scores[j]
        &&& forall|j: int| 0 <= j < index ==> scores[j] > scores[index]
    }
}

/// The position where the least score stands first.
pub open spec fn first_minimum_of(scores: Seq<nat>) -> int {
    choose|index: int| is_first_minimum(scores, index)
}

/// The edit distances from every configured name to `item`.
pub open spec fn distances(config: Seq<Seq<char>>, item: Seq<char>) -> Seq<nat> {
    Seq::new(config.len(), |i: int| edit_distance(config[i], item))
}

/// The scores of a vector, as natural numbers.
pub open spec fn as_scores(scores: Seq<usize>) -> Seq<nat> {
    scores.map_values(|score: usize| score as nat)
}

/// The position in `config` to which a found name goes: that of the
/// configured name nearest to it, the first of them where several are as
/// near. The found name is held against them without the base path in front.
pub open spec fn sort_key(config: Seq<Seq<char>>, item: Seq<char>, base: Seq<char>) -> int {
    first_minimum_of(distances(config, trim_prefixes(item, base)))
}

/// The sort keys of all found names.
pub open spec fn sort_keys(paths: Seq<Seq<char>>, config: Seq<Seq<char>>, base: Seq<char>) -> Seq<
    int,
> {
    Seq::new(paths.len(), |i: int| sort_key(config, paths[i], base))
}

/// The positions in front of `upto` whose key is `key`, ascending.
pub open spec fn positions_with(keys: Seq<int>, key: int, upto: int) -> Seq<int>
    decreases upto,
{
    if upto <= 0 {
        Seq::empty()
    } else if keys[upto - 1] == key {
        positions_with(keys, key, upto - 1).push(upto - 1)
    } else {
        positions_with(keys, key, upto - 1)
    }
}

/// The positions of `keys` whose key is below `bound`, ordered by key;
/// positions with the same key keep their order.
pub open spec fn stable_order(keys: Seq<int>, bound: int) -> Seq<int>
    decreases bound,
{
    if bound <= 0 {
        Seq::empty()
    } else {
        stable_order(keys, bound - 1) + positions_with(keys, bound - 1, keys.len() as int)
    }
}

/// The items at the positions that `order` lists.
pub open spec fn arranged(items: Seq<Seq<char>>, order: Seq<int>) -> Seq<Seq<char>> {
    order.map_values(|position: int| items[position])
}

/// The found names without their suffixes.
pub open spec fn stripped(paths: Seq<Seq<char>>) -> Seq<Seq<char>> {
    paths.map_values(|path: Seq<char>| before_marker(path))
}

/// What reconciling yields.
///
/// The two lists must be of one length, and the found names, without their
/// suffixes, must be the configured names, each as often as it is configured.
/// Then the found names are handed back, ordered by the position of the
/// configured name that each is nearest to; found names that go to the same
/// position keep their order.
pub open spec fn reconciled(
    paths: Seq<Seq<char>>,
    config: Seq<Seq<char>>,
    base: Seq<char>,
) -> Result<Seq<Seq<char>>, Failure> {
    if paths.len() != config.len() {
        Err(
            Failure::InvalidTrait(
                "[traits_by_path: "@ + decimal_digits(paths.len()) + " traits_by_config: "@
                    + decimal_digits(config.len()) + "]"@,
            ),
        )
    } else if stripped(paths).to_multiset() != config.to_multiset() {
        Err(Failure::InvalidTrait("[traits_by_path and traits_by_config are different]"@))
    } else {
        Ok(arranged(paths, stable_order(sort_keys(paths, config, base), config.len() as int)))
    }
}

/// How often `x` occurs in `s`.
pub open spec fn occurrences(s: Seq<Seq<char>>, x: Seq<char>) -> nat
    decreases s.len(),
{
    if s.len() == 0 {
        0
    } else {
        occurrences(s.drop_last(), x) + if s.last() == x {
            1nat
        } else {
            0nat
        }
    }
}

/// `occurrences` counts what the multiset of a sequence counts.
pub proof fn lemma_occurrences_count(s: Seq<Seq<char>>, x: Seq<char>)
    ensures
        occurrences(s, x) == s.to_multiset().count(x),
    decreases s.len(),
{
    broadcast use vstd::seq_lib::group_to_multiset_ensures;

    if s.len() == 0 {
    } else {
        lemma_occurrences_count(s.drop_last(), x);
        assert(s == s.drop_last().push(s.last()));
    }
}

/// What occurs in `s` stands somewhere in it.
pub proof fn lemma_occurrences_witness(s: Seq<Seq<char>>, x: Seq<char>) -> (i: int)
    requires
        occurrences(s, x) >= 1,
    ensures
        0 <= i < s.len(),
        s[i] == x,
    decreases s.len(),
{
    if s.last() == x {
        s.len() - 1
    } else {
        lemma_occurrences_witness(s.drop_last(), x)
    }
}

/// The first minimum of a list is one position only.
pub proof fn lemma_first_minimum_unique(scores: Seq<nat>, a: int, b: int)
    requires
        is_first_minimum(scores, a),
        is_first_minimum(scores, b),
    ensures
        a == b,
{
    if scores.len() > 0 {
        if a < b {
        } else if b < a {
            assert(scores[b] <= scores[a]);
        }
    }
}

/// Two texts are at edit distance 0 just when they are the same text.
pub proof fn lemma_edit_distance_zero(a: Seq<char>, b: Seq<char>)
    ensures
        edit_distance(a, b) == 0 <==> a == b,
    decreases a.len() + b.len(),
{
    if a.len() == 0 || b.len() == 0 {
        if a.len() == 0 && b.len() == 0 {
            assert(a =~= b);
        }
    } else {
        lemma_edit_distance_zero(a.drop_last(), b.drop_last());
        if edit_distance(a, b) == 0 {
            assert(a =~= a.drop_last().push(a.last()));
            assert(b =~= b.drop_last().push(b.last()));
        }
    }
}

/// A text without `#` has no suffix to lose.
pub proof fn lemma_before_marker_of_plain(s: Seq<char>)
    requires
        !s.contains('#'),
    ensures
        before_marker(s) == s,
{
    lemma_first_at_or_after(s, '#', 0);
}

/// Where one position only holds `key`, `positions_with` lists that position
/// once it has passed it, and nothing before.
pub proof fn lemma_positions_of_single(keys: Seq<int>, key: int, position: int, upto: int)
    requires
        0 <= position < keys.len(),
        0 <= upto <= keys.len(),
        keys[position] == key,
        forall|i: int| 0 <= i < keys.len() && i != position ==> keys[i] != key,
    ensures
        positions_with(keys, key, upto) == if upto > position {
            seq![position]
        } else {
            Seq::<int>::empty()
        },
    decreases upto,
{
    if upto > 0 {
        lemma_positions_of_single(keys, key, position, upto - 1);
    }
}

/// Names that are found just as they are configured come back in the
/// configured order.
///
/// The configured names are all different; the found names are the
/// configured names in some order; no found name holds a `#`, and none
/// begins with the base path, unless that is empty.
pub proof fn lemma_reconcile_restores_order(
    paths: Seq<Seq<char>>,
    config: Seq<Seq<char>>,
    base: Seq<char>,
)
    requires
        config.no_duplicates(),
        paths.to_multiset() == config.to_multiset(),
        forall|i: int| 0 <= i < paths.len() ==> !(#[trigger] paths[i]).contains('#'),
        base.len() == 0 || forall|i: int|
            0 <= i < paths.len() ==> !base.is_prefix_of(#[trigger] paths[i]),
    ensures
        reconciled(paths, config, base) == Ok::<Seq<Seq<char>>, Failure>(config),
{
    broadcast use vstd::seq_lib::group_to_multiset_ensures;

    let n = config.len() as int;
    assert(paths.len() == n) by {
        assert(paths.to_multiset().len() == paths.len());
    }
    assert(stripped(paths) =~= paths) by {
        assert forall|i: int| 0 <= i < paths.len() implies stripped(paths)[i] == paths[i] by {
            lemma_before_marker_of_plain(paths[i]);
        }
    }
    config.lemma_multiset_has_no_duplicates();
    paths.lemma_multiset_has_no_duplicates_conv();
    let keys = sort_keys(paths, config, base);
    // every found name goes to the position of the configured name that it is
    assert forall|i: int| 0 <= i < n implies 0 <= #[trigger] keys[i] < n && config[keys[i]]
        == paths[i] by {
        let item = paths[i];
        assert(config.to_multiset().count(item) > 0);
        let q = choose|q: int| 0 <= q < config.len() && config[q] == item;
        let scores = distances(config, item);
        lemma_edit_distance_zero(config[q], item);
        assert forall|j: int| 0 <= j < q implies scores[j] > scores[q] by {
            lemma_edit_distance_zero(config[j], item);
        }
        assert(is_first_minimum(scores, q));
        lemma_first_minimum_unique(scores, q, first_minimum_of(scores));
    }
    // every position of the configured list gets one found name
    assert forall|k: int| 0 <= k <= n implies arranged(paths, #[trigger] stable_order(keys, k))
        == config.take(k) by {
        lemma_arranged_by_place(paths, config, keys, k);
    }
    assert(config.take(n) =~= config);
}

/// The first `bound` configured names, as the found names arranged by keys
/// that send every found name to its own configured name.
proof fn lemma_arranged_by_place(
    paths: Seq<Seq<char>>,
    config: Seq<Seq<char>>,
    keys: Seq<int>,
    bound: int,
)
    requires
        paths.no_duplicates(),
        paths.to_multiset() == config.to_multiset(),
        keys.len() == paths.len() == config.len(),
        0 <= bound <= config.len(),
        forall|i: int|
            0 <= i < paths.len() ==> 0 <= #[trigger] keys[i] < config.len() && config[keys[i]]
                == paths[i],
    ensures
        arranged(paths, stable_order(keys, bound)) == config.take(bound),
    decreases bound,
{
    broadcast use vstd::seq_lib::group_to_multiset_ensures;

    if bound > 0 {
        lemma_arranged_by_place(paths, config, keys, bound - 1);
        let name = config[bound - 1];
        assert(paths.to_multiset().count(name) > 0);
        let p = choose|p: int| 0 <= p < paths.len() && paths[p] == name;
        assert(forall|i: int| 0 <= i < keys.len() && i != p ==> keys[i] != bound - 1);
        assert(keys[p] == bound - 1) by {
            if keys[p] != bound - 1 {
                // the name at `keys[p]` would be the name at `bound - 1`, and it is `paths[p]`
                lemma_same_name_same_place(config, paths, keys[p], bound - 1);
            }
        }
        lemma_positions_of_single(keys, bound - 1, p, keys.len() as int);
        let front = stable_order(keys, bound - 1);
        assert(arranged(paths, front + seq![p]) =~= arranged(paths, front).push(paths[p]));
    }
}

/// In a list that holds what a list without repeats holds, a name stands at
/// one place only.
proof fn lemma_same_name_same_place(config: Seq<Seq<char>>, paths: Seq<Seq<char>>, a: int, b: int)
    requires
        paths.no_duplicates(),
        paths.to_multiset() == config.to_multiset(),
        0 <= a < config.len(),
        0 <= b < config.len(),
        config[a] == config[b],
    ensures
        a == b,
{
    paths.lemma_multiset_has_no_duplicates();
    config.lemma_multiset_has_no_duplicates_conv();
}

/// How many positions in front of `upto` have the key `key` and hold `x`.
pub open spec fn hits(
    paths: Seq<Seq<char>>,
    keys: Seq<int>,
    x: Seq<char>,
    key: int,
    upto: int,
) -> nat
    decreases upto,
{
    if upto <= 0 {
        0
    } else {
        hits(paths, keys, x, key, upto - 1) + if keys[upto - 1] == key && paths[upto - 1] == x {
            1nat
        } else {
            0nat
        }
    }
}

/// How many positions in front of `upto` have a key below `bound` and hold
/// `x`.
pub open spec fn hits_below(
    paths: Seq<Seq<char>>,
    keys: Seq<int>,
    x: Seq<char>,
    bound: int,
    upto: int,
) -> nat
    decreases upto,
{
    if upto <= 0 {
        0
    } else {
        hits_below(paths, keys, x, bound, upto - 1) + if keys[upto - 1] < bound && paths[upto - 1]
            == x {
            1nat
        } else {
            0nat
        }
    }
}

/// What occurs in two lists put together occurs in one or the other.
proof fn lemma_occurrences_add(a: Seq<Seq<char>>, b: Seq<Seq<char>>, x: Seq<char>)
    ensures
        occurrences(a + b, x) == occurrences(a, x) + occurrences(b, x),
    decreases b.len(),
{
    if b.len() == 0 {
    } else {
        lemma_occurrences_add(a, b.drop_last(), x);
        assert((a + b).drop_last() =~= a + b.drop_last());
    }
}

/// The items at the positions of one key hold `x` as often as `hits` counts.
proof fn lemma_occurrences_of_key(
    paths: Seq<Seq<char>>,
    keys: Seq<int>,
    x: Seq<char>,
    key: int,
    upto: int,
)
    requires
        keys.len() == paths.len(),
        0 <= upto <= paths.len(),
    ensures
        occurrences(arranged(paths, positions_with(keys, key, upto)), x) == hits(
            paths,
            keys,
            x,
            key,
            upto,
        ),
    decreases upto,
{
    if upto > 0 {
        lemma_occurrences_of_key(paths, keys, x, key, upto - 1);
        if keys[upto - 1] == key {
            let front = positions_with(keys, key, upto - 1);
            assert(arranged(paths, front.push(upto - 1)) =~= arranged(paths, front).push(
                paths[upto - 1],
            ));
            assert(arranged(paths, front).push(paths[upto - 1]).drop_last() =~= arranged(
                paths,
                front,
            ));
        }
    }
}

/// The positions with a key below `bound` are those with a key below
/// `bound - 1` and those with the key `bound - 1`.
proof fn lemma_hits_below_step(
    paths: Seq<Seq<char>>,
    keys: Seq<int>,
    x: Seq<char>,
    bound: int,
    upto: int,
)
    ensures
        hits_below(paths, keys, x, bound, upto) == hits_below(paths, keys, x, bound - 1, upto)
            + hits(paths, keys, x, bound - 1, upto),
    decreases upto,
{
    if upto > 0 {
        lemma_hits_below_step(paths, keys, x, bound, upto - 1);
    }
}

/// No key below 0 means no position with a key below 0.
proof fn lemma_hits_below_zero(paths: Seq<Seq<char>>, keys: Seq<int>, x: Seq<char>, upto: int)
    requires
        0 <= upto <= keys.len(),
        forall|i: int| 0 <= i < keys.len() ==> 0 <= #[trigger] keys[i],
    ensures
        hits_below(paths, keys, x, 0, upto) == 0,
    decreases upto,
{
    if upto > 0 {
        lemma_hits_below_zero(paths, keys, x, upto - 1);
    }
}

/// Where every key is below `bound`, every position counts.
proof fn lemma_hits_below_all(
    paths: Seq<Seq<char>>,
    keys: Seq<int>,
    x: Seq<char>,
    bound: int,
    upto: int,
)
    requires
        keys.len() == paths.len(),
        0 <= upto <= paths.len(),
        forall|i: int| 0 <= i < keys.len() ==> #[trigger] keys[i] < bound,
    ensures
        hits_below(paths, keys, x, bound, upto) == occurrences(paths.take(upto), x),
    decreases upto,
{
    if upto > 0 {
        lemma_hits_below_all(paths, keys, x, bound, upto - 1);
        assert(paths.take(upto).drop_last() =~= paths.take(upto - 1));
    }
}

/// The items in stable order hold `x` as often as it stands at a position
/// with a key below the bound.
proof fn lemma_occurrences_in_order(
    paths: Seq<Seq<char>>,
    keys: Seq<int>,
    x: Seq<char>,
    bound: int,
)
    requires
        keys.len() == paths.len(),
        0 <= bound,
        forall|i: int| 0 <= i < keys.len() ==> 0 <= #[trigger] keys[i],
    ensures
        occurrences(arranged(paths, stable_order(keys, bound)), x) == hits_below(
            paths,
            keys,
            x,
            bound,
            paths.len() as int,
        ),
    decreases bound,
{
    let n = paths.len() as int;
    if bound == 0 {
        lemma_hits_below_zero(paths, keys, x, n);
    } else {
        lemma_occurrences_in_order(paths, keys, x, bound - 1);
        lemma_occurrences_of_key(paths, keys, x, bound - 1, n);
        lemma_hits_below_step(paths, keys, x, bound, n);
        let front = stable_order(keys, bound - 1);
        let here = positions_with(keys, bound - 1, n);
        assert(arranged(paths, front + here) =~= arranged(paths, front) + arranged(paths, here));
        lemma_occurrences_add(arranged(paths, front), arranged(paths, here), x);
    }
}

/// Arranging by keys that all lie below the bound loses nothing and adds
/// nothing: the arranged items are the given items in another order.
pub proof fn lemma_arranged_is_rearrangement(paths: Seq<Seq<char>>, keys: Seq<int>, bound: int)
    requires
        keys.len() == paths.len(),
        forall|i: int| 0 <= i < keys.len() ==> 0 <= #[trigger] keys[i] < bound,
    ensures
        arranged(paths, stable_order(keys, bound)).to_multiset() == paths.to_multiset(),
{
    let out = arranged(paths, stable_order(keys, bound));
    if paths.len() == 0 {
        lemma_stable_order_of_nothing(keys, bound);
        assert(out =~= paths);
    } else {
        assert(0 <= keys[0] < bound);
        assert forall|x: Seq<char>| out.to_multiset().count(x) == paths.to_multiset().count(x) by {
            lemma_occurrences_in_order(paths, keys, x, bound);
            lemma_hits_below_all(paths, keys, x, bound, paths.len() as int);
            assert(paths.take(paths.len() as int) =~= paths);
            lemma_occurrences_count(out, x);
            lemma_occurrences_count(paths, x);
        }
    }
}

/// Without keys there are no positions to order.
proof fn lemma_stable_order_of_nothing(keys: Seq<int>, bound: int)
    requires
        keys.len() == 0,
    ensures
        stable_order(keys, bound).len() == 0,
    decreases bound,
{
    if bound > 0 {
        lemma_stable_order_of_nothing(keys, bound - 1);
    }
}

/// A list that is not empty has a first minimum.
pub proof fn lemma_first_minimum_exists(scores: Seq<nat>)
    requires
        scores.len() > 0,
    ensures
        is_first_minimum(scores, first_minimum_of(scores)),
    decreases scores.len(),
{
    if scores.len() == 1 {
        assert(is_first_minimum(scores, 0));
    } else {
        let front = scores.drop_last();
        lemma_first_minimum_exists(front);
        let best = first_minimum_of(front);
        assert(forall|j: int| 0 <= j < front.len() ==> front[j] == scores[j]);
        if scores.last() < scores[best] {
            assert(is_first_minimum(scores, scores.len() - 1));
        } else {
            assert(is_first_minimum(scores, best));
        }
    }
}

/// Reconciling hands back the found names, all of them and no others, in
/// another order.
pub proof fn lemma_reconciled_is_rearrangement(
    paths: Seq<Seq<char>>,
    config: Seq<Seq<char>>,
    base: Seq<char>,
)
    requires
        reconciled(paths, config, base) is Ok,
    ensures
        reconciled(paths, config, base)->Ok_0.to_multiset() == paths.to_multiset(),
{
    let keys = sort_keys(paths, config, base);
    assert forall|i: int| 0 <= i < keys.len() implies 0 <= #[trigger] keys[i] < config.len() by {
        lemma_first_minimum_exists(distances(config, trim_prefixes(paths[i], base)));
    }
    lemma_arranged_is_rearrangement(paths, keys, config.len() as int);
}

/// The edit distance of two texts.
///
/// The body calls `strsim::levenshtein`, which counts the insertions,
/// deletions and replacements of characters that turn one text into the
/// other, by the recurrence that `edit_distance` writes down.
#[verifier::external_body]
fn levenshtein_distance(a: &str, b: &str) -> (distance: usize)
    ensures
        distance == edit_distance(a@, b@),
{
    strsim::levenshtein(a, b)
}

/// The position where the least score stands first.
pub fn first_minimum(scores: &Vec<usize>) -> (index: usize)
    ensures
        is_first_minimum(as_scores(scores@), index as int),
{
    let mut best: usize = 0;
    let mut i: usize = 1;
    while i < scores.len()
        invariant
            1 <= i,
            scores.len() > 0 ==> best < i && best < scores.len(),
            scores.len() == 0 ==> best == 0,
            forall|j: int| 0 <= j < i && j < scores.len() ==> scores[best as int] <= scores[j],
            forall|j: int| 0 <= j < best ==> scores[j] > scores[best as int],
        decreases scores.len() - i,
    {
        if scores[i] < scores[best] {
            best = i;
        }
        i += 1;
    }
    best
}

/// How many characters at the front of `s` are copies of `prefix`.
fn prefix_run(s: &Vec<char>, prefix: &Vec<char>) -> (offset: usize)
    ensures
        offset <= s.len(),
        trim_prefixes(s@, prefix@) == s@.skip(offset as int),
{
    let mut offset: usize = 0;
    if prefix.len() == 0 {
        return 0;
    }
    assert(s@.skip(0) == s@);
    loop
        invariant
            offset <= s.len(),
            prefix.len() > 0,
            trim_prefixes(s@, prefix@) == trim_prefixes(s@.skip(offset as int), prefix@),
        decreases s.len() - offset,
    {
        let ghost rest = s@.skip(offset as int);
        if prefix.len() > s.len() - offset {
            return offset;
        }
        let mut k: usize = 0;
        while k < prefix.len()
            invariant
                k <= prefix.len() <= s.len() - offset,
                offset <= s.len(),
                rest == s@.skip(offset as int),
                trim_prefixes(s@, prefix@) == trim_prefixes(rest, prefix@),
                forall|j: int| 0 <= j < k ==> prefix@[j] == rest[j],
            decreases prefix.len() - k,
        {
            if prefix[k] != s[offset + k] {
                return offset;
            }
            k += 1;
        }
        assert(rest.skip(prefix@.len() as int) == s@.skip(offset + prefix@.len()));
        offset += prefix.len();
    }
}

/// The position in `config` to which the found name `item` goes.
fn closest_index(config: &Vec<String>, item: &String, base: &Vec<char>) -> (index: usize)
    ensures
        index == sort_key(names(config@), item@, base@),
        config.len() > 0 ==> index < config.len(),
{
    let chars = chars_of(item.as_str());
    let offset = prefix_run(&chars, base);
    let trimmed = item.as_str().substring_char(offset, chars.len());
    let mut scores: Vec<usize> = Vec::new();
    let mut i: usize = 0;
    while i < config.len()
        invariant
            i <= config.len(),
            scores.len() == i,
            trimmed@ == trim_prefixes(item@, base@),
            forall|j: int|
                0 <= j < i ==> scores[j] as nat == distances(names(config@), trimmed@)[j],
        decreases config.len() - i,
    {
        scores.push(levenshtein_distance(config[i].as_str(), trimmed));
        i += 1;
    }
    assert(as_scores(scores@) =~= distances(names(config@), trimmed@));
    let index = first_minimum(&scores);
    proof {
        lemma_first_minimum_unique(
            as_scores(scores@),
            index as int,
            first_minimum_of(as_scores(scores@)),
        );
    }
    index
}

/// Whether `x` occurs as often in `a` as in `b`.
fn occurs_equally(a: &Vec<Vec<char>>, b: &Vec<Vec<char>>, x: &Vec<char>) -> (same: bool)
    ensures
        same == (occurrences(texts(a@), x@) == occurrences(texts(b@), x@)),
{
    let in_a = count_of(a, x);
    let in_b = count_of(b, x);
    in_a == in_b
}

/// How often `x` occurs in `list`.
fn count_of(list: &Vec<Vec<char>>, x: &Vec<char>) -> (count: usize)
    ensures
        count == occurrences(texts(list@), x@),
{
    let mut count: usize = 0;
    let mut i: usize = 0;
    while i < list.len()
        invariant
            i <= list.len(),
            count <= i,
            count == occurrences(texts(list@).take(i as int), x@),
        decreases list.len() - i,
    {
        proof {
            assert(texts(list@).take(i + 1).drop_last() == texts(list@).take(i as int));
        }
        if same_text(&list[i], x) {
            count += 1;
        }
        i += 1;
    }
    assert(texts(list@).take(list.len() as int) == texts(list@));
    count
}

/// Whether two lists hold the same texts, each as often in one as in the
/// other.
fn same_multiset(a: &Vec<Vec<char>>, b: &Vec<Vec<char>>) -> (same: bool)
    ensures
        same == (texts(a@).to_multiset() == texts(b@).to_multiset()),
{
    let ghost sa = texts(a@);
    let ghost sb = texts(b@);
    let mut i: usize = 0;
    while i < a.len()
        invariant
            i <= a.len(),
            sa == texts(a@),
            sb == texts(b@),
            forall|k: int| 0 <= k < i ==> occurrences(sa, sa[k]) == occurrences(sb, sa[k]),
        decreases a.len() - i,
    {
        if !occurs_equally(a, b, &a[i]) {
            proof {
                lemma_occurrences_count(sa, sa[i as int]);
                lemma_occurrences_count(sb, sa[i as int]);
            }
            return false;
        }
        i += 1;
    }
    let mut j: usize = 0;
    while j < b.len()
        invariant
            j <= b.len(),
            sa == texts(a@),
            sb == texts(b@),
            forall|k: int| 0 <= k < sa.len() ==> occurrences(sa, sa[k]) == occurrences(sb, sa[k]),
            forall|k: int| 0 <= k < j ==> occurrences(sa, sb[k]) == occurrences(sb, sb[k]),
        decreases b.len() - j,
    {
        if !occurs_equally(a, b, &b[j]) {
            proof {
                lemma_occurrences_count(sa, sb[j as int]);
                lemma_occurrences_count(sb, sb[j as int]);
            }
            return false;
        }
        j += 1;
    }
    proof {
        assert forall|x: Seq<char>| sa.to_multiset().count(x) == sb.to_multiset().count(x) by {
            lemma_occurrences_count(sa, x);
            lemma_occurrences_count(sb, x);
            if occurrences(sa, x) >= 1 {
                lemma_occurrences_witness(sa, x);
            } else if occurrences(sb, x) >= 1 {
                lemma_occurrences_witness(sb, x);
            }
        }
        assert(sa.to_multiset() =~= sb.to_multiset());
    }
    true
}

/// The found names in the order of their keys.
fn arrange(paths: &Vec<String>, keys: &Vec<usize>, bound: usize) -> (out: Vec<String>)
    requires
        keys.len() == paths.len(),
    ensures
        names(out@) == arranged(
            names(paths@),
            stable_order(keys@.map_values(|k: usize| k as int), bound as int),
        ),
{
    let ghost items = names(paths@);
    let ghost ks = keys@.map_values(|k: usize| k as int);
    let mut out: Vec<String> = Vec::new();
    let mut key: usize = 0;
    while key < bound
        invariant
            key <= bound,
            keys.len() == paths.len(),
            items == names(paths@),
            ks == keys@.map_values(|k: usize| k as int),
            names(out@) == arranged(items, stable_order(ks, key as int)),
        decreases bound - key,
    {
        let ghost done = stable_order(ks, key as int);
        let mut i: usize = 0;
        while i < paths.len()
            invariant
                i <= paths.len(),
                keys.len() == paths.len(),
                items == names(paths@),
                ks == keys@.map_values(|k: usize| k as int),
                names(out@) == arranged(items, done + positions_with(ks, key as int, i as int)),
            decreases paths.len() - i,
        {
            if keys[i] == key {
                out.push(paths[i].clone());
                assert(arranged(items, done + positions_with(ks, key as int, i + 1))
                    == arranged(items, done + positions_with(ks, key as int, i as int)).push(
                    items[i as int],
                ));
            }
            i += 1;
        }
        key += 1;
    }
    out
}

/// Checks the layers that were found against the layers that were
/// configured, and puts the found ones in the configured order.
///
/// `traits_by_path` are the names that were found and `traits_by_config` the
/// configured ones; `base_path` is taken off the front of a found name
/// before it is held against the configured names.
pub fn compare_and_verify_traits<T: PartialEq + Ord + Clone>(
    traits_by_path: Vec<String>,
    traits_by_config: Vec<String>,
    base_path: &str,
) -> (result: Result<Vec<String>, CustomError>)
    ensures
        match reconciled(names(traits_by_path@), names(traits_by_config@), base_path@) {
            Ok(ordered) => result is Ok && names(result->Ok_0@) == ordered,
            Err(failure) => result is Err && result->Err_0@ == failure,
        },
{
    if traits_by_path.len() != traits_by_config.len() {
        let mut detail = String::from_str("[traits_by_path: ");
        detail.append(decimal_text(traits_by_path.len() as u64).as_str());
        detail.append(" traits_by_config: ");
        detail.append(decimal_text(traits_by_config.len() as u64).as_str());
        detail.append("]");
        return Err(CustomError::InvalidTrait(detail));
    }
    let ghost paths = names(traits_by_path@);
    let ghost config = names(traits_by_config@);
    let mut treated: Vec<Vec<char>> = Vec::new();
    let mut wanted: Vec<Vec<char>> = Vec::new();
    let mut i: usize = 0;
    while i < traits_by_path.len()
        invariant
            i <= traits_by_path.len(),
            traits_by_path.len() == traits_by_config.len(),
            paths == names(traits_by_path@),
            config == names(traits_by_config@),
            texts(treated@) == stripped(paths).take(i as int),
            texts(wanted@) == config.take(i as int),
        decreases traits_by_path.len() - i,
    {
        let ghost treated_before = texts(treated@);
        let ghost wanted_before = texts(wanted@);
        let bare = strip_marker(&chars_of(traits_by_path[i].as_str()));
        let name = chars_of(traits_by_config[i].as_str());
        treated.push(bare);
        wanted.push(name);
        assert(texts(treated@) == treated_before.push(bare@));
        assert(texts(wanted@) == wanted_before.push(name@));
        i += 1;
    }
    assert(stripped(paths).take(paths.len() as int) == stripped(paths));
    assert(config.take(config.len() as int) == config);
    if !same_multiset(&treated, &wanted) {
        return Err(
            CustomError::InvalidTrait(
                String::from_str("[traits_by_path and traits_by_config are different]"),
            ),
        );
    }
    let base = chars_of(base_path);
    let mut keys: Vec<usize> = Vec::new();
    let mut k: usize = 0;
    while k < traits_by_path.len()
        invariant
            k <= traits_by_path.len(),
            keys.len() == k,
            base@ == base_path@,
            paths == names(traits_by_path@),
            config == names(traits_by_config@),
            forall|j: int| 0 <= j < k ==> keys[j] as int == sort_keys(paths, config, base_path@)[j],
        decreases traits_by_path.len() - k,
    {
        keys.push(closest_index(&traits_by_config, &traits_by_path[k], &base));
        k += 1;
    }
    assert(keys@.map_values(|k: usize| k as int) =~= sort_keys(paths, config, base_path@));
    Ok(arrange(&traits_by_path, &keys, traits_by_config.len()))
}

} // verus!
