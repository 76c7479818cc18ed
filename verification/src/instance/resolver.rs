//! Resolution of the matrixes of a configuration into instances: every
//! combination of a matrix's inputs gives one instance of its template.

use vstd::prelude::*;

use vstd::slice::slice_subrange;

use crate::config::loader::Loader;
use crate::config::v1::{ShardConfig, ShardMatrix, ShardTemplate};
use crate::instance::{loader_view, InstanceModel, InstanceSource, ResolvedInstance};

use crate::sorted_map::{keys_of, lemma_lookup_text, lemma_map_insert, lookup, map_insert, text_entries,
    text_list_entries, values_of, SortedMap};
use crate::text::{same_text, char_utf8_len, char_utf8_len_exec, chars_of, find_char_from, join, join_strings,
    lemma_find_char_from, lemma_find_char_from_skip, lemma_utf8_len_prefix, seq_less, string_from_chars, utf8_len,
    utf8_len_of, views};

verus! {

broadcast use vstd::string::group_string_axioms;

/// One combination of inputs: a value for each input, in key order.
pub type Combination = Seq<(Seq<char>, Seq<char>)>;

/// Each of `prev`, in order, extended by `key` with each of `values` in turn.
pub open spec fn extend_all(prev: Seq<Combination>, key: Seq<char>, values: Seq<Seq<char>>) -> Seq<Combination>
    decreases prev.len(),
{
    if prev.len() == 0 {
        Seq::empty()
    } else {
        extend_all(prev.drop_last(), key, values) + values.map_values(
            |v: Seq<char>| prev.last().push((key, v)),
        )
    }
}

/// Every combination of the axes: the first axis varies slowest, the last
/// fastest. No axes give one empty combination, an axis without values gives
/// none.
pub open spec fn expand_axes(axes: Seq<(Seq<char>, Seq<Seq<char>>)>) -> Seq<Combination>
    decreases axes.len(),
{
    if axes.len() == 0 {
        seq![Seq::empty()]
    } else {
        extend_all(expand_axes(axes.drop_last()), axes.last().0, axes.last().1)
    }
}

/// The text of each combination of a sequence.
pub open spec fn combination_models(maps: Seq<SortedMap<String>>) -> Seq<Combination> {
    maps.map_values(|m: SortedMap<String>| text_entries(m))
}

/// The number of values of each axis, multiplied together.
pub open spec fn value_product(axes: Seq<(Seq<char>, Seq<Seq<char>>)>) -> nat
    decreases axes.len(),
{
    if axes.len() == 0 {
        1
    } else {
        value_product(axes.drop_last()) * axes.last().1.len()
    }
}

/// The length of `extend_all`.
proof fn lemma_extend_all_len(prev: Seq<Combination>, key: Seq<char>, values: Seq<Seq<char>>)
    ensures
        extend_all(prev, key, values).len() == prev.len() * values.len(),
    decreases prev.len(),
{
    if prev.len() > 0 {
        lemma_extend_all_len(prev.drop_last(), key, values);
        assert(prev.len() * values.len() == (prev.len() - 1) * values.len() + values.len()) by (nonlinear_arith);
    }
}

/// Every element of `extend_all` is one of `prev` extended by one of `values`.
proof fn lemma_extend_all_member(prev: Seq<Combination>, key: Seq<char>, values: Seq<Seq<char>>, i: int)
    requires
        0 <= i < extend_all(prev, key, values).len(),
    ensures
        exists|p: int, q: int|
            0 <= p < prev.len() && 0 <= q < values.len() && #[trigger] extend_all(prev, key, values)[i]
                == prev[p].push((key, values[q])),
    decreases prev.len(),
{
    if prev.len() > 0 {
        let front = extend_all(prev.drop_last(), key, values);
        if i < front.len() {
            lemma_extend_all_member(prev.drop_last(), key, values, i);
            let (p, q) = choose|p: int, q: int|
                0 <= p < prev.drop_last().len() && 0 <= q < values.len() && front[i]
                    == prev.drop_last()[p].push((key, values[q]));
            assert(extend_all(prev, key, values)[i] == prev[p].push((key, values[q])));
        } else {
            let q = i - front.len();
            assert(extend_all(prev, key, values)[i] == prev[prev.len() - 1].push((key, values[q])));
        }
    }
}

/// Every element of `prev` extended by every one of `values` is in `extend_all`.
proof fn lemma_extend_all_contains(prev: Seq<Combination>, key: Seq<char>, values: Seq<Seq<char>>, p: int, q: int)
    requires
        0 <= p < prev.len(),
        0 <= q < values.len(),
    ensures
        extend_all(prev, key, values).contains(prev[p].push((key, values[q]))),
    decreases prev.len(),
{
    let all = extend_all(prev, key, values);
    let front = extend_all(prev.drop_last(), key, values);
    if p < prev.len() - 1 {
        lemma_extend_all_contains(prev.drop_last(), key, values, p, q);
        let i = choose|i: int| 0 <= i < front.len() && front[i] == prev.drop_last()[p].push((key, values[q]));
        assert(all[i] == front[i]);
    } else {
        assert(all[front.len() + q] == prev[p].push((key, values[q])));
    }
}

/// A combination for `axes`: each input in order, with one of its values.
pub open spec fn is_choice(axes: Seq<(Seq<char>, Seq<Seq<char>>)>, combination: Combination) -> bool {
    &&& combination.len() == axes.len()
    &&& forall|j: int|
        0 <= j < axes.len() ==> #[trigger] combination[j].0 == axes[j].0 && axes[j].1.contains(
            combination[j].1,
        )
}

/// The number of combinations of the inputs of a matrix is the product of the
/// numbers of values of its inputs: no inputs give a single combination, and
/// an input without values gives none.
pub proof fn lemma_expand_count(axes: Seq<(Seq<char>, Seq<Seq<char>>)>)
    ensures
        expand_axes(axes).len() == value_product(axes),
    decreases axes.len(),
{
    if axes.len() > 0 {
        lemma_expand_count(axes.drop_last());
        lemma_extend_all_len(expand_axes(axes.drop_last()), axes.last().0, axes.last().1);
    }
}

/// Every combination of the inputs of a matrix gives each input, in key
/// order, one of its values.
pub proof fn lemma_expand_sound(axes: Seq<(Seq<char>, Seq<Seq<char>>)>, i: int)
    requires
        0 <= i < expand_axes(axes).len(),
    ensures
        is_choice(axes, expand_axes(axes)[i]),
    decreases axes.len(),
{
    if axes.len() == 0 {
    } else {
        let prev = expand_axes(axes.drop_last());
        let (key, values) = axes.last();
        lemma_extend_all_member(prev, key, values, i);
        let (p, q) = choose|p: int, q: int|
            0 <= p < prev.len() && 0 <= q < values.len() && #[trigger] extend_all(prev, key, values)[i]
                == prev[p].push((key, values[q]));
        lemma_expand_sound(axes.drop_last(), p);
        let c = expand_axes(axes)[i];
        assert forall|j: int| 0 <= j < axes.len() implies #[trigger] c[j].0 == axes[j].0 && axes[j].1.contains(
            c[j].1,
        ) by {
            if j < axes.len() - 1 {
                assert(c[j] == prev[p][j]);
                assert(axes.drop_last()[j] == axes[j]);
            } else {
                assert(c[j] == (key, values[q]));
            }
        }
    }
}

/// Every way of giving each input of a matrix one of its values is among the
/// combinations.
pub proof fn lemma_expand_complete(axes: Seq<(Seq<char>, Seq<Seq<char>>)>, combination: Combination)
    requires
        is_choice(axes, combination),
    ensures
        expand_axes(axes).contains(combination),
    decreases axes.len(),
{
    if axes.len() == 0 {
        assert(combination =~= Seq::<(Seq<char>, Seq<char>)>::empty());
        assert(expand_axes(axes)[0] == combination);
    } else {
        let front = combination.drop_last();
        let rest = axes.drop_last();
        assert forall|j: int| 0 <= j < rest.len() implies #[trigger] front[j].0 == rest[j].0 && rest[j].1.contains(
            front[j].1,
        ) by {
            assert(combination[j].0 == axes[j].0);
        }
        lemma_expand_complete(rest, front);
        let prev = expand_axes(rest);
        let p = choose|p: int| 0 <= p < prev.len() && prev[p] == front;
        let (key, values) = axes.last();
        assert(combination[axes.len() - 1].0 == axes[axes.len() - 1].0);
        assert(values.contains(combination.last().1));
        let q = choose|q: int| 0 <= q < values.len() && values[q] == combination.last().1;
        lemma_extend_all_contains(prev, key, values, p, q);
        assert(prev[p].push((key, values[q])) =~= combination);
    }
}

/// Where each extension stands in `extend_all`: the `q`th value of the
/// `p`th combination at index `p * values.len() + q`.
proof fn lemma_extend_all_index(prev: Seq<Combination>, key: Seq<char>, values: Seq<Seq<char>>, p: int, q: int)
    requires
        0 <= p < prev.len(),
        0 <= q < values.len(),
    ensures
        p * values.len() + q < extend_all(prev, key, values).len(),
        extend_all(prev, key, values)[p * values.len() + q] == prev[p].push((key, values[q])),
    decreases prev.len(),
{
    let n = values.len() as int;
    lemma_extend_all_len(prev, key, values);
    assert(p * n + q < prev.len() * n) by (nonlinear_arith)
        requires
            0 <= p < prev.len(),
            0 <= q < n,
    ;
    let front = prev.drop_last();
    lemma_extend_all_len(front, key, values);
    if p < prev.len() - 1 {
        lemma_extend_all_index(front, key, values, p, q);
        assert(front[p] == prev[p]);
    } else {
        assert(p * n == front.len() * n);
    }
}

/// An index below `p_len * n` splits into the combination and value it
/// stands for.
proof fn lemma_split_index(i: int, n: int, p_len: int)
    requires
        0 <= i < p_len * n,
        0 < n,
    ensures
        0 <= i / n < p_len,
        0 <= i % n < n,
        i == (i / n) * n + i % n,
{
    vstd::arithmetic::div_mod::lemma_fundamental_div_mod(i, n);
    assert(0 <= i % n < n) by {
        vstd::arithmetic::div_mod::lemma_mod_bound(i, n);
    }
    assert(0 <= i / n) by {
        vstd::arithmetic::div_mod::lemma_div_pos_is_pos(i, n);
    }
    assert(i / n < p_len) by (nonlinear_arith)
        requires
            i == n * (i / n) + i % n,
            0 <= i % n,
            i < p_len * n,
            0 < n,
    ;
    assert(i == (i / n) * n + i % n) by (nonlinear_arith)
        requires
            i == n * (i / n) + i % n,
    ;
}

/// The product of the numbers of values splits at any point.
#[verifier::spinoff_prover]
proof fn lemma_value_product_split(axes: Seq<(Seq<char>, Seq<Seq<char>>)>, k: int)
    requires
        0 <= k <= axes.len(),
    ensures
        value_product(axes) == value_product(axes.take(k)) * value_product(axes.skip(k)),
    decreases axes.len(),
{
    if k == axes.len() {
        assert(axes.take(k) =~= axes);
        assert(axes.skip(k) =~= Seq::<(Seq<char>, Seq<Seq<char>>)>::empty());
        assert(value_product(axes.skip(k)) == 1);
    } else {
        let front = axes.drop_last();
        lemma_value_product_split(front, k);
        assert(front.take(k) =~= axes.take(k));
        assert(axes.skip(k).drop_last() =~= front.skip(k));
        assert(axes.skip(k).last() == axes.last());
        let a = value_product(axes.take(k));
        let b = value_product(front.skip(k));
        let n = axes.last().1.len();
        assert(value_product(axes) == value_product(front) * n);
        assert(value_product(front) == a * b);
        assert(value_product(axes.skip(k)) == b * n);
        assert((a * b) * n == a * (b * n)) by (nonlinear_arith);
    }
}

/// Which value each combination gives each input: the combination at index
/// `i` gives input `j` its value number `(i / m) % n_j`, where `n_j` is the
/// number of values of input `j` and `m` the product of the numbers of values
/// of the inputs after it (the first input varies slowest, the last fastest).
#[verifier::spinoff_prover]
#[verifier::rlimit(40)]
pub proof fn lemma_expand_index(axes: Seq<(Seq<char>, Seq<Seq<char>>)>, i: int, j: int)
    requires
        0 <= i < expand_axes(axes).len(),
        0 <= j < axes.len(),
    ensures
        expand_axes(axes)[i].len() == axes.len(),
        expand_axes(axes)[i][j] == (
            axes[j].0,
            axes[j].1[(i / (value_product(axes.skip(j + 1)) as int)) % (axes[j].1.len() as int)],
        ),
    decreases axes.len(),
{
    let front = axes.drop_last();
    let (key, values) = axes.last();
    let n = values.len() as int;
    let prev = expand_axes(front);
    lemma_expand_count(axes);
    lemma_expand_count(front);
    assert(n > 0) by {
        if n == 0 {
            assert(value_product(front) * n == 0) by (nonlinear_arith)
                requires
                    n == 0,
            ;
        }
    }
    lemma_split_index(i, n, prev.len() as int);
    let p = i / n;
    let q = i % n;
    lemma_extend_all_index(prev, key, values, p, q);
    lemma_expand_sound(front, p);
    let last = axes.len() - 1;
    let combination = expand_axes(axes)[i];
    assert(expand_axes(axes) == extend_all(prev, key, values));
    assert(combination == prev[p].push((key, values[q])));
    assert(prev[p].len() == front.len());
    if j == last {
        assert(axes.skip(j + 1) =~= Seq::<(Seq<char>, Seq<Seq<char>>)>::empty());
        assert(value_product(axes.skip(j + 1)) == 1);
        assert(i / 1int == i);
        assert(combination[j] == (key, values[q]));
        assert(axes[j] == (key, values));
    } else {
        lemma_expand_index(front, p, j);
        assert(front[j] == axes[j]);
        assert(axes.skip(j + 1).drop_last() =~= front.skip(j + 1));
        assert(axes.skip(j + 1).last() == axes.last());
        let m = value_product(front.skip(j + 1));
        assert(value_product(axes.skip(j + 1)) == m * n);
        lemma_value_product_split(front, j + 1);
        assert(m > 0) by {
            let a = value_product(front.take(j + 1));
            assert(a * m > 0);
            if m == 0 {
                assert(a * m == 0) by (nonlinear_arith)
                    requires
                        m == 0,
                ;
            }
        }
        vstd::arithmetic::div_mod::lemma_div_denominator(i, n, m as int);
        assert(n * m == m * n) by (nonlinear_arith);
        assert(i / (value_product(axes.skip(j + 1)) as int) == p / (m as int));
        assert(combination[j] == prev[p][j]);
        assert(prev[p][j] == (front[j].0, front[j].1[(p / (value_product(front.skip(j + 1)) as int)) % (
        front[j].1.len() as int)]));
    }
}

/// A combination with one more entry is another combination only when both
/// the combination and the entry are the same.
proof fn lemma_push_injective(a: Combination, b: Combination, x: (Seq<char>, Seq<char>), y: (Seq<char>, Seq<char>))
    requires
        a.push(x) == b.push(y),
    ensures
        a == b,
        x == y,
{
    assert(a.push(x).drop_last() =~= a);
    assert(b.push(y).drop_last() =~= b);
    assert(a.push(x).last() == x);
}

/// When no input repeats a value, no combination occurs twice.
pub proof fn lemma_expand_no_duplicates(axes: Seq<(Seq<char>, Seq<Seq<char>>)>)
    requires
        forall|j: int| 0 <= j < axes.len() ==> (#[trigger] axes[j]).1.no_duplicates(),
    ensures
        expand_axes(axes).no_duplicates(),
    decreases axes.len(),
{
    if axes.len() > 0 {
        let front = axes.drop_last();
        let (key, values) = axes.last();
        let n = values.len() as int;
        let prev = expand_axes(front);
        assert forall|j: int| 0 <= j < front.len() implies (#[trigger] front[j]).1.no_duplicates() by {
            assert(front[j] == axes[j]);
        }
        assert(axes[axes.len() - 1].1.no_duplicates());
        lemma_expand_no_duplicates(front);
        lemma_extend_all_len(prev, key, values);
        let all = expand_axes(axes);
        assert forall|a: int, b: int| 0 <= a < all.len() && 0 <= b < all.len() && a != b implies all[a] != all[b] by {
            lemma_split_index(a, n, prev.len() as int);
            lemma_split_index(b, n, prev.len() as int);
            lemma_extend_all_index(prev, key, values, a / n, a % n);
            lemma_extend_all_index(prev, key, values, b / n, b % n);
            if all[a] == all[b] {
                lemma_push_injective(prev[a / n], prev[b / n], (key, values[a % n]), (key, values[b % n]));
            }
        }
    }
}

/// The order in which maps from strings to strings compare (as `BTreeMap`
/// does): entry by entry, by key and then by value, a proper prefix first.
pub open spec fn combination_less(a: Combination, b: Combination) -> bool
    decreases a.len(),
{
    if a.len() == 0 {
        b.len() > 0
    } else if b.len() == 0 {
        false
    } else if a[0] != b[0] {
        seq_less(a[0].0, b[0].0) || (a[0].0 == b[0].0 && seq_less(a[0].1, b[0].1))
    } else {
        combination_less(a.drop_first(), b.drop_first())
    }
}

/// Values in strictly increasing order.
pub open spec fn values_ascending(values: Seq<Seq<char>>) -> bool {
    forall|a: int, b: int| 0 <= a < b < values.len() ==> seq_less(#[trigger] values[a], #[trigger] values[b])
}

/// An order between two combinations of one length survives one more entry
/// on each.
proof fn lemma_less_push(a: Combination, b: Combination, x: (Seq<char>, Seq<char>), y: (Seq<char>, Seq<char>))
    requires
        combination_less(a, b),
        a.len() == b.len(),
    ensures
        combination_less(a.push(x), b.push(y)),
    decreases a.len(),
{
    assert(a.push(x)[0] == a[0]);
    assert(b.push(y)[0] == b[0]);
    if a[0] == b[0] {
        assert(a.push(x).drop_first() =~= a.drop_first().push(x));
        assert(b.push(y).drop_first() =~= b.drop_first().push(y));
        lemma_less_push(a.drop_first(), b.drop_first(), x, y);
    }
}

/// A combination with a smaller last value comes first.
proof fn lemma_less_last(a: Combination, key: Seq<char>, v: Seq<char>, w: Seq<char>)
    requires
        seq_less(v, w),
    ensures
        combination_less(a.push((key, v)), a.push((key, w))),
    decreases a.len(),
{
    crate::text::lemma_seq_less_irreflexive(key);
    if a.len() == 0 {
        crate::text::lemma_seq_less_irreflexive(v);
        assert(a.push((key, v))[0] == (key, v));
        assert(a.push((key, w))[0] == (key, w));
    } else {
        assert(a.push((key, v))[0] == a[0]);
        assert(a.push((key, w))[0] == a[0]);
        assert(a.push((key, v)).drop_first() =~= a.drop_first().push((key, v)));
        assert(a.push((key, w)).drop_first() =~= a.drop_first().push((key, w)));
        lemma_less_last(a.drop_first(), key, v, w);
    }
}

/// When the values of every input are in increasing order, the combinations
/// come in increasing order.
pub proof fn lemma_expand_sorted(axes: Seq<(Seq<char>, Seq<Seq<char>>)>, a: int, b: int)
    requires
        forall|j: int| 0 <= j < axes.len() ==> values_ascending(#[trigger] axes[j].1),
        0 <= a < b < expand_axes(axes).len(),
    ensures
        combination_less(expand_axes(axes)[a], expand_axes(axes)[b]),
    decreases axes.len(),
{
    let front = axes.drop_last();
    let (key, values) = axes.last();
    let n = values.len() as int;
    let prev = expand_axes(front);
    lemma_extend_all_len(prev, key, values);
    assert(n > 0) by {
        if n == 0 {
            assert(prev.len() * n == 0) by (nonlinear_arith)
                requires
                    n == 0,
            ;
        }
    }
    lemma_split_index(a, n, prev.len() as int);
    lemma_split_index(b, n, prev.len() as int);
    let (pa, qa, pb, qb) = (a / n, a % n, b / n, b % n);
    lemma_extend_all_index(prev, key, values, pa, qa);
    lemma_extend_all_index(prev, key, values, pb, qb);
    assert(pa < pb || (pa == pb && qa < qb)) by (nonlinear_arith)
        requires
            a == pa * n + qa,
            b == pb * n + qb,
            0 <= qa < n,
            0 <= qb < n,
            a < b,
    ;
    assert(values_ascending(axes[axes.len() - 1].1));
    if pa < pb {
        assert forall|j: int| 0 <= j < front.len() implies values_ascending(#[trigger] front[j].1) by {
            assert(front[j] == axes[j]);
        }
        lemma_expand_sorted(front, pa, pb);
        lemma_expand_sound(front, pa);
        lemma_expand_sound(front, pb);
        lemma_less_push(prev[pa], prev[pb], (key, values[qa]), (key, values[qb]));
    } else {
        lemma_less_last(prev[pa], key, values[qa], values[qb]);
    }
}

/// Extending a prefix one element further.
proof fn lemma_extend_all_take(prev: Seq<Combination>, key: Seq<char>, values: Seq<Seq<char>>, n: int)
    requires
        0 <= n < prev.len(),
    ensures
        extend_all(prev.take(n + 1), key, values) == extend_all(prev.take(n), key, values)
            + values.map_values(|v: Seq<char>| prev[n].push((key, v))),
{
    assert(prev.take(n + 1).drop_last() =~= prev.take(n));
    assert(prev.take(n + 1).last() == prev[n]);
}

/// Expands a map of inputs from a matrix into every combination of it: each
/// input takes each of its values, and the combinations come in the order in
/// which the last input varies fastest.
pub fn expand_inputs(with: &SortedMap<Vec<String>>) -> (combinations: Vec<SortedMap<String>>)
    ensures
        combination_models(combinations@) == expand_axes(text_list_entries(*with)),
{
    let ghost axes = text_list_entries(*with);
    let n = with.len();
    proof {
        with.lemma_entries_of();
    }
    let mut combinations: Vec<SortedMap<String>> = Vec::new();
    combinations.push(SortedMap::new());
    proof {
        assert(axes.take(0) =~= Seq::<(Seq<char>, Seq<Seq<char>>)>::empty());
        assert(text_entries(combinations@[0]) =~= Seq::<(Seq<char>, Seq<char>)>::empty());
        assert(combination_models(combinations@) =~= expand_axes(axes.take(0)));
    }
    let mut a: usize = 0;
    while a < n
        invariant
            n == with.keys().len(),
            n == with.values().len(),
            n == axes.len(),
            values_of(with.entries_of()) == with.values(),
            axes == text_list_entries(*with),
            crate::sorted_map::keys_sorted(with.keys()),
            keys_of(with.entries_of()) == with.keys(),
            a <= n,
            combination_models(combinations@) == expand_axes(axes.take(a as int)),
            forall|i: int|
                0 <= i < combinations@.len() ==> keys_of(#[trigger] combinations@[i].entries_of())
                    == with.keys().take(a as int),
        decreases n - a,
    {
        let key = with.key_at(a);
        let values = with.value_at(a);
        let ghost value_texts = views(values@);
        let ghost prev = combination_models(combinations@);
        proof {
            assert(with.entries_of()[a as int].0 == keys_of(with.entries_of())[a as int]);
            assert(with.entries_of()[a as int].1 == values_of(with.entries_of())[a as int]);
            assert(axes[a as int] == (key@, value_texts));
            assert(axes.take(a + 1).drop_last() =~= axes.take(a as int));
            assert(axes.take(a + 1).last() == axes[a as int]);
            assert(expand_axes(axes.take(a + 1)) == extend_all(prev, key@, value_texts));
        }
        let mut next: Vec<SortedMap<String>> = Vec::new();
        let mut ci: usize = 0;
        while ci < combinations.len()
            invariant
                ci <= combinations@.len(),
                prev == combination_models(combinations@),
                value_texts == views(values@),
                key@ == with.keys()[a as int],
                a < n,
                n == with.keys().len(),
                crate::sorted_map::keys_sorted(with.keys()),
                forall|i: int|
                    0 <= i < combinations@.len() ==> keys_of(#[trigger] combinations@[i].entries_of())
                        == with.keys().take(a as int),
                combination_models(next@) == extend_all(prev.take(ci as int), key@, value_texts),
                forall|i: int|
                    0 <= i < next@.len() ==> keys_of(#[trigger] next@[i].entries_of()) == with.keys().take(
                        a + 1,
                    ),
            decreases combinations@.len() - ci,
        {
            let ghost before = combination_models(next@);
            let mut vi: usize = 0;
            while vi < values.len()
                invariant
                    ci < combinations@.len(),
                    vi <= values@.len(),
                    prev == combination_models(combinations@),
                    value_texts == views(values@),
                    key@ == with.keys()[a as int],
                    a < n,
                    n == with.keys().len(),
                    crate::sorted_map::keys_sorted(with.keys()),
                    keys_of(combinations@[ci as int].entries_of()) == with.keys().take(a as int),
                    before == extend_all(prev.take(ci as int), key@, value_texts),
                    combination_models(next@) == before + value_texts.take(vi as int).map_values(
                        |v: Seq<char>| prev[ci as int].push((key@, v)),
                    ),
                    forall|i: int|
                        0 <= i < next@.len() ==> keys_of(#[trigger] next@[i].entries_of())
                            == with.keys().take(a + 1),
                decreases values@.len() - vi,
            {
                let mut combination = combinations[ci].duplicate();
                let ghost old_entries = combination.entries_of();
                let value = values[vi].clone();
                proof {
                    assert forall|j: int| 0 <= j < old_entries.len() implies crate::text::seq_less(
                        #[trigger] old_entries[j].0,
                        key@,
                    ) by {
                        assert(keys_of(old_entries).len() == old_entries.len());
                        assert(keys_of(old_entries)[j] == old_entries[j].0);
                        assert(j < a);
                        assert(with.keys().take(a as int)[j] == with.keys()[j]);
                    }
                    lemma_map_insert(old_entries, key@, value);
                }
                combination.insert(key.clone(), value);
                proof {
                    assert(combination.entries_of() == old_entries.push((key@, value)));
                    assert(text_entries(combination) =~= prev[ci as int].push((key@, value@)));
                    assert(keys_of(combination.entries_of()) =~= with.keys().take(a + 1));
                }
                let ghost models_before = combination_models(next@);
                let ghost model = text_entries(combination);
                next.push(combination);
                proof {
                    assert(combination_models(next@) =~= models_before.push(model));
                    assert(value_texts[vi as int] == value@);
                    assert(value_texts.take(vi + 1) =~= value_texts.take(vi as int).push(value@));
                    assert(value_texts.take(vi + 1).map_values(
                        |v: Seq<char>| prev[ci as int].push((key@, v)),
                    ) =~= value_texts.take(vi as int).map_values(
                        |v: Seq<char>| prev[ci as int].push((key@, v)),
                    ).push(model));
                    assert(combination_models(next@) =~= before + value_texts.take(vi + 1).map_values(
                        |v: Seq<char>| prev[ci as int].push((key@, v)),
                    ));
                }
                vi = vi + 1;
            }
            proof {
                assert(value_texts.take(vi as int) =~= value_texts);
                lemma_extend_all_take(prev, key@, value_texts, ci as int);
            }
            ci = ci + 1;
        }
        proof {
            assert(prev.take(ci as int) =~= prev);
        }
        combinations = next;
        a = a + 1;
    }
    proof {
        assert(axes.take(a as int) =~= axes);
    }
    combinations
}

/// A range of bytes within a template string.
#[derive(Debug, Clone, Copy, PartialEq, Eq)]
pub struct Span {
    /// The byte offset at which the range starts.
    pub offset: usize,
    /// The number of bytes in the range.
    pub length: usize,
}

/// Why the instances of a configuration could not be resolved.
#[derive(Debug)]
pub enum InstanceResolverError {
    /// A template was referenced that does not exist.
    UndefinedTemplate(String),
    /// A matrix was defined, but no Minecraft version was available in its inputs.
    MissingMinecraftVersion(String),
    /// Placeholders were used in a string that do not correspond to an input.
    UnknownPlaceholder {
        /// The string that holds the placeholders.
        template: String,
        /// Where each unknown placeholder stands, braces included.
        unknown: Vec<Span>,
        /// The inputs that are available for use, joined by `", "`.
        available: String,
    },
    /// A placeholder was opened but never closed.
    UnterminatedPlaceholder {
        /// The string that holds the placeholder.
        template: String,
        /// Where the unclosed `{` stands.
        placeholder: Span,
    },
    /// Two instances would have the same ID.
    DuplicateInstanceId(String),
}

/// What an [`InstanceResolverError`] holds, as text.
pub enum ResolverErrorModel {
    UndefinedTemplate(Seq<char>),
    MissingMinecraftVersion(Seq<char>),
    UnknownPlaceholder { template: Seq<char>, unknown: Seq<Span>, available: Seq<char> },
    UnterminatedPlaceholder { template: Seq<char>, placeholder: Span },
    DuplicateInstanceId(Seq<char>),
}

impl View for InstanceResolverError {
    type V = ResolverErrorModel;

    open spec fn view(&self) -> ResolverErrorModel {
        match self {
            InstanceResolverError::UndefinedTemplate(t) => ResolverErrorModel::UndefinedTemplate(t@),
            InstanceResolverError::MissingMinecraftVersion(t) => ResolverErrorModel::MissingMinecraftVersion(t@),
            InstanceResolverError::UnknownPlaceholder { template, unknown, available } =>
                ResolverErrorModel::UnknownPlaceholder {
                template: template@,
                unknown: unknown@,
                available: available@,
            },
            InstanceResolverError::UnterminatedPlaceholder { template, placeholder } =>
                ResolverErrorModel::UnterminatedPlaceholder { template: template@, placeholder: *placeholder },
            InstanceResolverError::DuplicateInstanceId(id) => ResolverErrorModel::DuplicateInstanceId(id@),
        }
    }
}

/// The byte offset of the character at index `i` of `text`.
pub open spec fn byte_offset(text: Seq<char>, i: int) -> usize {
    utf8_len(text.take(i)) as usize
}

/// The bytes from index `start` up to (not including) index `end` of `text`.
pub open spec fn byte_span(text: Seq<char>, start: int, end: int) -> Span {
    Span { offset: byte_offset(text, start), length: (utf8_len(text.take(end)) - utf8_len(text.take(start))) as usize }
}

/// Interpolation of `template` from index `cursor` on, where `out` has been
/// produced so far and `unknown` holds the unknown placeholders met so far.
///
/// Each `{key}` is replaced by the value of `key` in `inputs`. An unknown key
/// is recorded and interpolation goes on, so that every unknown placeholder is
/// reported together at the end; a `{` without a later `}` stops it at once.
pub open spec fn interpolate_from(
    template: Seq<char>,
    inputs: Combination,
    cursor: int,
    out: Seq<char>,
    unknown: Seq<Span>,
) -> Result<Seq<char>, ResolverErrorModel>
    decreases template.len() - cursor,
{
    if cursor < 0 || cursor > template.len() {
        Ok(out)
    } else {
        match find_char_from(template, '{', cursor) {
            None => if unknown.len() > 0 {
                Err(
                    ResolverErrorModel::UnknownPlaceholder {
                        template,
                        unknown,
                        available: join(keys_of(inputs), ", "@),
                    },
                )
            } else {
                Ok(out + template.subrange(cursor, template.len() as int))
            },
            Some(open) => match find_char_from(template, '}', open) {
                None => Err(
                    ResolverErrorModel::UnterminatedPlaceholder {
                        template,
                        placeholder: byte_span(template, open, open + 1),
                    },
                ),
                Some(close) => {
                    proof {
                        lemma_find_char_from(template, '{', cursor);
                        lemma_find_char_from(template, '}', open);
                    }
                    let text = out + template.subrange(cursor, open);
                    let key = template.subrange(open + 1, close);
                    match lookup(inputs, key) {
                        Some(value) => interpolate_from(template, inputs, close + 1, text + value, unknown),
                        None => interpolate_from(
                            template,
                            inputs,
                            close + 1,
                            text,
                            unknown.push(byte_span(template, open, close + 1)),
                        ),
                    }
                },
            },
        }
    }
}

/// The interpolation of `template` with `inputs`.
pub open spec fn interpolate(template: Seq<char>, inputs: Combination) -> Result<Seq<char>, ResolverErrorModel> {
    interpolate_from(template, inputs, 0, Seq::empty(), Seq::empty())
}

/// One more character of UTF-8 length.
proof fn lemma_utf8_len_step(text: Seq<char>, i: int)
    requires
        0 <= i < text.len(),
    ensures
        utf8_len(text.take(i + 1)) == utf8_len(text.take(i)) + char_utf8_len(text[i]),
        utf8_len(text.take(i + 1)) <= utf8_len(text),
{
    assert(text.take(i + 1).drop_last() =~= text.take(i));
    lemma_utf8_len_prefix(text, i + 1);
}

/// Replaces the placeholders in `template` with the values of `inputs`.
///
/// Every `{key}` is replaced with the value of `key`. Unknown keys are all
/// reported together; a `{` that is never closed is reported on its own.
#[verifier::spinoff_prover]
#[verifier::rlimit(40)]
pub fn interpolate_string(template: &str, inputs: &SortedMap<String>) -> (result: Result<String, InstanceResolverError>)
    ensures
        match interpolate(template@, text_entries(*inputs)) {
            Ok(text) => result is Ok && result->Ok_0@ == text,
            Err(e) => result is Err && result->Err_0@ == e,
        },
{
    let chars = chars_of(template);
    let total = utf8_len_of(template);
    let ghost t = template@;
    let ghost model = text_entries(*inputs);
    let mut result: Vec<char> = Vec::new();
    let mut unknown: Vec<Span> = Vec::new();
    let mut cursor: usize = 0;
    let mut cursor_bytes: usize = 0;
    proof {
        assert(t.take(0) =~= Seq::<char>::empty());
        assert(result@ =~= Seq::<char>::empty());
        assert(unknown@ =~= Seq::<Span>::empty());
    }
    loop
        invariant
            chars@ == t,
            t == template@,
            model == text_entries(*inputs),
            total == utf8_len(t),
            cursor <= t.len(),
            cursor_bytes == utf8_len(t.take(cursor as int)),
            interpolate(t, model) == interpolate_from(t, model, cursor as int, result@, unknown@),
        decreases t.len() - cursor,
    {
        let ghost out = result@;
        // Copy the text up to the next opening brace.
        let mut open = cursor;
        let mut open_bytes = cursor_bytes;
        while open < chars.len() && chars[open] != '{'
            invariant
                chars@ == t,
                total == utf8_len(t),
                cursor <= open <= t.len(),
                open_bytes == utf8_len(t.take(open as int)),
                result@ == out + t.subrange(cursor as int, open as int),
                forall|j: int| cursor <= j < open ==> t[j] != '{',
            decreases t.len() - open,
        {
            proof {
                lemma_utf8_len_step(t, open as int);
            }
            result.push(chars[open]);
            open_bytes = open_bytes + char_utf8_len_exec(chars[open]);
            proof {
                assert(t.subrange(cursor as int, open + 1) =~= t.subrange(cursor as int, open as int).push(t[open as int]));
            }
            open = open + 1;
        }
        proof {
            lemma_find_char_from_skip(t, '{', cursor as int, open as int);
            lemma_find_char_from(t, '{', cursor as int);
        }
        if open == chars.len() {
            if unknown.len() > 0 {
                let keys = inputs.key_list();
                let available = join_strings(&keys, ", ");
                proof {
                    inputs.lemma_entries_of();
                    assert(views(keys@) =~= keys_of(model));
                }
                return Err(
                    InstanceResolverError::UnknownPlaceholder {
                        template: String::from_str(template),
                        unknown,
                        available,
                    },
                );
            }
            return Ok(string_from_chars(result.as_slice()));
        }
        // Find the closing brace.
        let mut close = open;
        let mut close_bytes = open_bytes;
        while close < chars.len() && chars[close] != '}'
            invariant
                chars@ == t,
                total == utf8_len(t),
                open <= close <= t.len(),
                close_bytes == utf8_len(t.take(close as int)),
                forall|j: int| open <= j < close ==> t[j] != '}',
            decreases t.len() - close,
        {
            proof {
                lemma_utf8_len_step(t, close as int);
            }
            close_bytes = close_bytes + char_utf8_len_exec(chars[close]);
            close = close + 1;
        }
        proof {
            lemma_find_char_from_skip(t, '}', open as int, close as int);
            lemma_find_char_from(t, '}', open as int);
            lemma_utf8_len_step(t, open as int);
        }
        if close == chars.len() {
            return Err(
                InstanceResolverError::UnterminatedPlaceholder {
                    template: String::from_str(template),
                    placeholder: Span { offset: open_bytes, length: 1 },
                },
            );
        }
        proof {
            lemma_utf8_len_step(t, close as int);
            assert(t[close as int] == '}');
            assert(find_char_from(t, '{', cursor as int) == Some(open as int));
            assert(find_char_from(t, '}', open as int) == Some(close as int));
            lemma_utf8_len_prefix(t.take(close as int), open as int);
            assert(t.take(close as int).take(open as int) =~= t.take(open as int));
        }
        let ghost unknown_before = unknown@;
        let ghost text = result@;
        let key = slice_subrange(chars.as_slice(), open + 1, close);
        let found = inputs.get_by_chars(key);
        proof {
            crate::sorted_map::lemma_text_lookup(*inputs, key@);
            assert(key@ == t.subrange(open + 1, close as int));
            assert(text == out + t.subrange(cursor as int, open as int));
        }
        match found {
            Some(value) => {
                let mut value_chars = chars_of(value.as_str());
                result.append(&mut value_chars);
            },
            None => {
                unknown.push(Span { offset: open_bytes, length: close_bytes + 1 - open_bytes });
            },
        }
        proof {
            assert(interpolate_from(t, model, cursor as int, out, unknown_before) == interpolate_from(
                t,
                model,
                close + 1,
                result@,
                unknown@,
            ));
        }
        cursor = close + 1;
        cursor_bytes = close_bytes + 1;
    }
}

/// Whether `c` is alphabetic or numeric in Unicode.
pub uninterp spec fn is_alphanumeric(c: char) -> bool;

/// Calls std's `char::is_alphanumeric`; what it returns is named
/// [`is_alphanumeric`] (Unicode's alphabetic and numeric properties).
#[verifier::external_body]
fn char_is_alphanumeric(c: char) -> (alphanumeric: bool)
    ensures
        alphanumeric == is_alphanumeric(c),
{
    c.is_alphanumeric()
}

/// `text` with every character that is not alphanumeric replaced by `_`.
pub open spec fn sanitize(text: Seq<char>) -> Seq<char> {
    text.map_values(|c: char| if is_alphanumeric(c) { c } else { '_' })
}

/// The ID of the instance of template `uses` for a combination: the template
/// name, a hyphen, and the input values in key order joined by hyphens, each
/// value with every character that is not alphanumeric made `_`.
pub open spec fn instance_id(uses: Seq<char>, inputs: Combination) -> Seq<char> {
    uses + "-"@ + join(values_of(inputs).map_values(|v: Seq<char>| sanitize(v)), "-"@)
}

/// The instance of `template` (named `uses`) for one combination of inputs.
pub open spec fn resolve_combination(template: ShardTemplate, uses: Seq<char>, inputs: Combination) -> Result<
    InstanceModel,
    ResolverErrorModel,
> {
    match lookup(inputs, "minecraft"@) {
        None => Err(ResolverErrorModel::MissingMinecraftVersion(uses)),
        Some(minecraft_version) => match interpolate(template.name@, inputs) {
            Err(e) => Err(e),
            Ok(name) => Ok(
                InstanceModel {
                    id: instance_id(uses, inputs),
                    name,
                    loader: loader_view(template.loader),
                    minecraft_version,
                    mods: text_list_entries(template.mods),
                    template: uses,
                    inputs,
                },
            ),
        },
    }
}

/// The instances of `template` for each of the combinations, in order; the
/// first combination that fails gives the error.
pub open spec fn resolve_combinations(
    template: ShardTemplate,
    uses: Seq<char>,
    combinations: Seq<Combination>,
) -> Result<Seq<InstanceModel>, ResolverErrorModel>
    decreases combinations.len(),
{
    if combinations.len() == 0 {
        Ok(Seq::empty())
    } else {
        match resolve_combinations(template, uses, combinations.drop_last()) {
            Err(e) => Err(e),
            Ok(done) => match resolve_combination(template, uses, combinations.last()) {
                Err(e) => Err(e),
                Ok(instance) => Ok(done.push(instance)),
            },
        }
    }
}

/// The instances of one matrix: its template must exist, and each
/// combination of its inputs gives an instance.
pub open spec fn resolve_matrix(templates: Seq<(Seq<char>, ShardTemplate)>, matrix: ShardMatrix) -> Result<
    Seq<InstanceModel>,
    ResolverErrorModel,
> {
    match lookup(templates, matrix.uses@) {
        None => Err(ResolverErrorModel::UndefinedTemplate(matrix.uses@)),
        Some(template) => resolve_combinations(
            template,
            matrix.uses@,
            expand_axes(text_list_entries(matrix.with)),
        ),
    }
}

/// The instances of all the matrixes, in order; the first matrix that fails
/// gives the error.
pub open spec fn resolve_matrices(templates: Seq<(Seq<char>, ShardTemplate)>, matrixes: Seq<ShardMatrix>) -> Result<
    Seq<InstanceModel>,
    ResolverErrorModel,
>
    decreases matrixes.len(),
{
    if matrixes.len() == 0 {
        Ok(Seq::empty())
    } else {
        match resolve_matrices(templates, matrixes.drop_last()) {
            Err(e) => Err(e),
            Ok(done) => match resolve_matrix(templates, matrixes.last()) {
                Err(e) => Err(e),
                Ok(more) => Ok(done + more),
            },
        }
    }
}

/// A failure among the first matrixes is the failure of all of them.
proof fn lemma_matrices_error_persists(
    templates: Seq<(Seq<char>, ShardTemplate)>,
    matrixes: Seq<ShardMatrix>,
    k: int,
    e: ResolverErrorModel,
)
    requires
        0 <= k <= matrixes.len(),
        resolve_matrices(templates, matrixes.take(k)) == Err::<Seq<InstanceModel>, ResolverErrorModel>(e),
    ensures
        resolve_matrices(templates, matrixes) == Err::<Seq<InstanceModel>, ResolverErrorModel>(e),
    decreases matrixes.len() - k,
{
    if k < matrixes.len() {
        assert(matrixes.take(k + 1).drop_last() =~= matrixes.take(k));
        lemma_matrices_error_persists(templates, matrixes, k + 1, e);
    } else {
        assert(matrixes.take(k) =~= matrixes);
    }
}

/// A failure among the first combinations is the failure of all of them.
proof fn lemma_combinations_error_persists(
    template: ShardTemplate,
    uses: Seq<char>,
    combinations: Seq<Combination>,
    k: int,
    e: ResolverErrorModel,
)
    requires
        0 <= k <= combinations.len(),
        resolve_combinations(template, uses, combinations.take(k)) == Err::<Seq<InstanceModel>, ResolverErrorModel>(e),
    ensures
        resolve_combinations(template, uses, combinations) == Err::<Seq<InstanceModel>, ResolverErrorModel>(e),
    decreases combinations.len() - k,
{
    if k < combinations.len() {
        assert(combinations.take(k + 1).drop_last() =~= combinations.take(k));
        lemma_combinations_error_persists(template, uses, combinations, k + 1, e);
    } else {
        assert(combinations.take(k) =~= combinations);
    }
}

/// Each combination that resolves gives one instance, in order, recording
/// the template's name and the combination's inputs.
pub proof fn lemma_one_instance_per_combination(
    template: ShardTemplate,
    uses: Seq<char>,
    combinations: Seq<Combination>,
)
    requires
        resolve_combinations(template, uses, combinations) is Ok,
    ensures
        ({
            let instances = resolve_combinations(template, uses, combinations)->Ok_0;
            &&& instances.len() == combinations.len()
            &&& forall|i: int|
                0 <= i < combinations.len() ==> {
                    &&& (#[trigger] instances[i]).template == uses
                    &&& instances[i].inputs == combinations[i]
                    &&& interpolate(template.name@, combinations[i]) == Ok::<
                        Seq<char>,
                        ResolverErrorModel,
                    >(instances[i].name)
                    &&& lookup(combinations[i], "minecraft"@) == Some(instances[i].minecraft_version)
                }
        }),
    decreases combinations.len(),
{
    if combinations.len() > 0 {
        lemma_one_instance_per_combination(template, uses, combinations.drop_last());
    }
}

/// A matrix that resolves gives one instance per combination of its inputs,
/// each recording the matrix's template and the combination: as many as the
/// product of the numbers of values of its inputs.
pub proof fn lemma_matrix_instances(templates: Seq<(Seq<char>, ShardTemplate)>, matrix: ShardMatrix)
    requires
        resolve_matrix(templates, matrix) is Ok,
    ensures
        ({
            let instances = resolve_matrix(templates, matrix)->Ok_0;
            let combinations = expand_axes(text_list_entries(matrix.with));
            &&& instances.len() == combinations.len()
            &&& instances.len() == value_product(text_list_entries(matrix.with))
            &&& forall|i: int|
                0 <= i < combinations.len() ==> (#[trigger] instances[i]).template == matrix.uses@
                    && instances[i].inputs == combinations[i]
        }),
{
    let template = lookup(templates, matrix.uses@)->Some_0;
    lemma_one_instance_per_combination(template, matrix.uses@, expand_axes(text_list_entries(matrix.with)));
    lemma_expand_count(text_list_entries(matrix.with));
}

/// A string without placeholders interpolates to itself, whatever the inputs.
pub proof fn lemma_interpolate_without_placeholders(template: Seq<char>, inputs: Combination)
    requires
        !template.contains('{'),
    ensures
        interpolate(template, inputs) == Ok::<Seq<char>, ResolverErrorModel>(template),
{
    lemma_find_char_from(template, '{', 0);
    if let Some(i) = find_char_from(template, '{', 0) {
        assert(template[i] == '{');
    }
    assert(Seq::<char>::empty() + template.subrange(0, template.len() as int) =~= template);
}

/// The combinations of a template resolve exactly when each of them does,
/// and then they give, in order, the instance of each.
pub proof fn lemma_resolve_combinations_ok(template: ShardTemplate, uses: Seq<char>, combinations: Seq<Combination>)
    ensures
        resolve_combinations(template, uses, combinations) is Ok <==> forall|k: int|
            0 <= k < combinations.len() ==> #[trigger] resolve_combination(template, uses, combinations[k]) is Ok,
        resolve_combinations(template, uses, combinations) is Ok ==> resolve_combinations(
            template,
            uses,
            combinations,
        )->Ok_0 == combinations.map_values(|c: Combination| resolve_combination(template, uses, c)->Ok_0),
    decreases combinations.len(),
{
    let mapped = combinations.map_values(|c: Combination| resolve_combination(template, uses, c)->Ok_0);
    if combinations.len() > 0 {
        let front = combinations.drop_last();
        lemma_resolve_combinations_ok(template, uses, front);
        assert forall|k: int| 0 <= k < front.len() implies #[trigger] front[k] == combinations[k] by {}
        if forall|k: int| 0 <= k < combinations.len() ==> #[trigger] resolve_combination(template, uses, combinations[k]) is Ok {
            assert forall|k: int| 0 <= k < front.len() implies #[trigger] resolve_combination(template, uses, front[k]) is Ok by {
                assert(front[k] == combinations[k]);
                assert(resolve_combination(template, uses, combinations[k]) is Ok);
            }
            assert(resolve_combination(template, uses, combinations[combinations.len() - 1]) is Ok);
        }
        if resolve_combinations(template, uses, combinations) is Ok {
            assert forall|k: int| 0 <= k < combinations.len() implies #[trigger] resolve_combination(template, uses, combinations[k]) is Ok by {
                if k < front.len() {
                    assert(front[k] == combinations[k]);
                    assert(resolve_combination(template, uses, front[k]) is Ok);
                }
            }
            assert(mapped.drop_last() =~= front.map_values(|c: Combination| resolve_combination(template, uses, c)->Ok_0));
            assert(mapped =~= mapped.drop_last().push(mapped.last()));
        }
    } else {
        assert(mapped =~= Seq::<InstanceModel>::empty());
    }
}

/// When the combinations of a template fail to resolve, the error is that of
/// the first combination that fails.
pub proof fn lemma_resolve_combinations_err(template: ShardTemplate, uses: Seq<char>, combinations: Seq<Combination>)
    requires
        resolve_combinations(template, uses, combinations) is Err,
    ensures
        exists|k: int|
            0 <= k < combinations.len() && (forall|j: int|
                0 <= j < k ==> #[trigger] resolve_combination(template, uses, combinations[j]) is Ok)
                && resolve_combination(template, uses, combinations[k]) == Err::<InstanceModel, ResolverErrorModel>(
                resolve_combinations(template, uses, combinations)->Err_0,
            ),
    decreases combinations.len(),
{
    let front = combinations.drop_last();
    let last = combinations.len() - 1;
    if resolve_combinations(template, uses, front) is Err {
        lemma_resolve_combinations_err(template, uses, front);
        let k = choose|k: int|
            0 <= k < front.len() && (forall|j: int|
                0 <= j < k ==> #[trigger] resolve_combination(template, uses, front[j]) is Ok)
                && resolve_combination(template, uses, front[k]) == Err::<InstanceModel, ResolverErrorModel>(
                resolve_combinations(template, uses, front)->Err_0,
            );
        assert forall|j: int| 0 <= j < k implies #[trigger] resolve_combination(template, uses, combinations[j]) is Ok by {
            assert(front[j] == combinations[j]);
        }
        assert(front[k] == combinations[k]);
    } else {
        lemma_resolve_combinations_ok(template, uses, front);
        assert forall|j: int| 0 <= j < last implies #[trigger] resolve_combination(template, uses, combinations[j]) is Ok by {
            assert(front[j] == combinations[j]);
        }
    }
}

/// A configuration resolves exactly when each of its matrixes does, and then
/// its instances are those of each matrix, concatenated in matrix order.
pub proof fn lemma_resolve_matrices_ok(templates: Seq<(Seq<char>, ShardTemplate)>, matrixes: Seq<ShardMatrix>)
    ensures
        resolve_matrices(templates, matrixes) is Ok <==> forall|k: int|
            0 <= k < matrixes.len() ==> #[trigger] resolve_matrix(templates, matrixes[k]) is Ok,
        resolve_matrices(templates, matrixes) is Ok ==> resolve_matrices(templates, matrixes)->Ok_0
            == matrixes.map_values(|m: ShardMatrix| resolve_matrix(templates, m)->Ok_0).flatten(),
    decreases matrixes.len(),
{
    let parts = matrixes.map_values(|m: ShardMatrix| resolve_matrix(templates, m)->Ok_0);
    parts.lemma_flatten_and_flatten_alt_are_equivalent();
    if matrixes.len() > 0 {
        let front = matrixes.drop_last();
        lemma_resolve_matrices_ok(templates, front);
        let front_parts = front.map_values(|m: ShardMatrix| resolve_matrix(templates, m)->Ok_0);
        front_parts.lemma_flatten_and_flatten_alt_are_equivalent();
        assert(parts.drop_last() =~= front_parts);
        if forall|k: int| 0 <= k < matrixes.len() ==> #[trigger] resolve_matrix(templates, matrixes[k]) is Ok {
            assert forall|k: int| 0 <= k < front.len() implies #[trigger] resolve_matrix(templates, front[k]) is Ok by {
                assert(front[k] == matrixes[k]);
                assert(resolve_matrix(templates, matrixes[k]) is Ok);
            }
            assert(resolve_matrix(templates, matrixes[matrixes.len() - 1]) is Ok);
        }
        if resolve_matrices(templates, matrixes) is Ok {
            assert forall|k: int| 0 <= k < matrixes.len() implies #[trigger] resolve_matrix(templates, matrixes[k]) is Ok by {
                if k < front.len() {
                    assert(front[k] == matrixes[k]);
                    assert(resolve_matrix(templates, front[k]) is Ok);
                }
            }
        }
    } else {
        assert(parts =~= Seq::<Seq<InstanceModel>>::empty());
    }
}

/// When a configuration fails to resolve, the error is that of the first
/// matrix that fails.
pub proof fn lemma_resolve_matrices_err(templates: Seq<(Seq<char>, ShardTemplate)>, matrixes: Seq<ShardMatrix>)
    requires
        resolve_matrices(templates, matrixes) is Err,
    ensures
        exists|k: int|
            0 <= k < matrixes.len() && (forall|j: int|
                0 <= j < k ==> #[trigger] resolve_matrix(templates, matrixes[j]) is Ok) && resolve_matrix(
                templates,
                matrixes[k],
            ) == Err::<Seq<InstanceModel>, ResolverErrorModel>(resolve_matrices(templates, matrixes)->Err_0),
    decreases matrixes.len(),
{
    let front = matrixes.drop_last();
    let last = matrixes.len() - 1;
    if resolve_matrices(templates, front) is Err {
        lemma_resolve_matrices_err(templates, front);
        let k = choose|k: int|
            0 <= k < front.len() && (forall|j: int|
                0 <= j < k ==> #[trigger] resolve_matrix(templates, front[j]) is Ok) && resolve_matrix(
                templates,
                front[k],
            ) == Err::<Seq<InstanceModel>, ResolverErrorModel>(resolve_matrices(templates, front)->Err_0);
        assert forall|j: int| 0 <= j < k implies #[trigger] resolve_matrix(templates, matrixes[j]) is Ok by {
            assert(front[j] == matrixes[j]);
        }
        assert(front[k] == matrixes[k]);
    } else {
        lemma_resolve_matrices_ok(templates, front);
        assert forall|j: int| 0 <= j < last implies #[trigger] resolve_matrix(templates, matrixes[j]) is Ok by {
            assert(front[j] == matrixes[j]);
        }
    }
}

/// Resolution fails exactly when some matrix uses an undefined template, or
/// some combination of its inputs has no `minecraft` input or gives a name
/// that does not interpolate.
pub proof fn lemma_resolution_fails(templates: Seq<(Seq<char>, ShardTemplate)>, matrixes: Seq<ShardMatrix>)
    ensures
        resolve_matrices(templates, matrixes) is Err <==> exists|k: int|
            0 <= k < matrixes.len() && matrix_fails(templates, #[trigger] matrixes[k]),
{
    lemma_resolve_matrices_ok(templates, matrixes);
    assert forall|m: ShardMatrix| resolve_matrix(templates, m) is Err <==> #[trigger] matrix_fails(templates, m) by {
        match lookup(templates, m.uses@) {
            Some(template) => {
                let combinations = expand_axes(text_list_entries(m.with));
                lemma_resolve_combinations_ok(template, m.uses@, combinations);
                if resolve_matrix(templates, m) is Err {
                    let k = choose|k: int|
                        0 <= k < combinations.len() && !(#[trigger] resolve_combination(
                            template,
                            m.uses@,
                            combinations[k],
                        ) is Ok);
                    assert(lookup(combinations[k], "minecraft"@) is None || interpolate(
                        template.name@,
                        combinations[k],
                    ) is Err);
                }
                if matrix_fails(templates, m) {
                    let c = choose|c: int|
                        0 <= c < combinations.len() && (lookup(#[trigger] combinations[c], "minecraft"@) is None
                            || interpolate(template.name@, combinations[c]) is Err);
                    assert(!(resolve_combination(template, m.uses@, combinations[c]) is Ok));
                }
            },
            None => {},
        }
    }
    if resolve_matrices(templates, matrixes) is Err {
        let k = choose|k: int| 0 <= k < matrixes.len() && !(resolve_matrix(templates, #[trigger] matrixes[k]) is Ok);
        assert(matrix_fails(templates, matrixes[k]));
    }
}

/// Whether a matrix cannot be resolved: its template is undefined, or some
/// combination of its inputs lacks `minecraft` or gives a name that does not
/// interpolate.
pub open spec fn matrix_fails(templates: Seq<(Seq<char>, ShardTemplate)>, matrix: ShardMatrix) -> bool {
    match lookup(templates, matrix.uses@) {
        None => true,
        Some(template) => {
            let combinations = expand_axes(text_list_entries(matrix.with));
            exists|c: int|
                0 <= c < combinations.len() && (lookup(#[trigger] combinations[c], "minecraft"@) is None
                    || interpolate(template.name@, combinations[c]) is Err)
        },
    }
}

/// A template made of parts, each a literal text followed by a placeholder
/// (`{`, a key, `}`).
pub open spec fn parts_text(parts: Seq<(Seq<char>, Seq<char>)>) -> Seq<char>
    decreases parts.len(),
{
    if parts.len() == 0 {
        Seq::empty()
    } else {
        parts_text(parts.drop_last()) + parts.last().0 + seq!['{'] + parts.last().1 + seq!['}']
    }
}

/// No literal text of the parts holds `{`, and no key holds `}`.
pub open spec fn parts_plain(parts: Seq<(Seq<char>, Seq<char>)>) -> bool {
    forall|i: int| 0 <= i < parts.len() ==> !(#[trigger] parts[i]).0.contains('{') && !parts[i].1.contains('}')
}

/// The texts of the parts, each followed by the value of its key (nothing for
/// an unknown key).
pub open spec fn substituted(parts: Seq<(Seq<char>, Seq<char>)>, inputs: Combination) -> Seq<char>
    decreases parts.len(),
{
    if parts.len() == 0 {
        Seq::empty()
    } else {
        substituted(parts.drop_last(), inputs) + parts.last().0 + match lookup(inputs, parts.last().1) {
            Some(v) => v,
            None => Seq::empty(),
        }
    }
}

/// Where, in `template`, the placeholders of the parts whose keys are
/// unknown stand, braces included, in order.
pub open spec fn unknown_spans(template: Seq<char>, parts: Seq<(Seq<char>, Seq<char>)>, inputs: Combination) -> Seq<
    Span,
>
    decreases parts.len(),
{
    if parts.len() == 0 {
        Seq::empty()
    } else {
        let front = parts.drop_last();
        let open: int = parts_text(front).len() as int + parts.last().0.len();
        let spans = unknown_spans(template, front, inputs);
        match lookup(inputs, parts.last().1) {
            Some(_) => spans,
            None => spans.push(byte_span(template, open, open + parts.last().1.len() + 2)),
        }
    }
}

/// A character that a sequence does not contain is at none of its indices.
proof fn lemma_not_at(s: Seq<char>, c: char, i: int)
    requires
        !s.contains(c),
        0 <= i < s.len(),
    ensures
        s[i] != c,
{
    if s[i] == c {
        assert(s.contains(c));
    }
}

/// Interpolating over one part: its text is copied and its placeholder is
/// replaced, or recorded as unknown.
proof fn lemma_interpolate_part(
    t: Seq<char>,
    inputs: Combination,
    cursor: int,
    out: Seq<char>,
    unknown: Seq<Span>,
    text: Seq<char>,
    key: Seq<char>,
)
    requires
        0 <= cursor,
        cursor + text.len() + key.len() + 2 <= t.len(),
        t.subrange(cursor, cursor + text.len() + key.len() + 2) == text + seq!['{'] + key + seq!['}'],
        !text.contains('{'),
        !key.contains('}'),
    ensures
        ({
            let open = cursor + text.len();
            let close = open + key.len() + 1;
            interpolate_from(t, inputs, cursor, out, unknown) == match lookup(inputs, key) {
                Some(v) => interpolate_from(t, inputs, close + 1, out + text + v, unknown),
                None => interpolate_from(t, inputs, close + 1, out + text, unknown.push(byte_span(t, open, close + 1))),
            }
        }),
{
    let open = cursor + text.len();
    let close = open + key.len() + 1;
    let seg = text + seq!['{'] + key + seq!['}'];
    assert forall|j: int| cursor <= j < open implies t[j] != '{' by {
        assert(t[j] == seg[j - cursor]);
        lemma_not_at(text, '{', j - cursor);
    }
    assert(t[open] == seg[text.len() as int]);
    lemma_find_char_from_skip(t, '{', cursor, open);
    assert(find_char_from(t, '{', open) == Some(open));
    assert forall|j: int| open <= j < close implies t[j] != '}' by {
        assert(t[j] == seg[j - cursor]);
        if j > open {
            lemma_not_at(key, '}', j - open - 1);
        }
    }
    assert(t[close] == seg[close - cursor]);
    lemma_find_char_from_skip(t, '}', open, close);
    assert(find_char_from(t, '}', close) == Some(close));
    assert(t.subrange(cursor, open) =~= text);
    assert forall|m: int| 0 <= m < key.len() implies t.subrange(open + 1, close)[m] == key[m] by {
        assert(t[open + 1 + m] == seg[text.len() + 1 + m]);
    }
    assert(t.subrange(open + 1, close) =~= key);
}

/// Interpolating the parts at the start of a template leaves the text after
/// them to interpolate, having substituted the parts and recorded their
/// unknown placeholders.
#[verifier::rlimit(40)]
proof fn lemma_interpolate_parts(t: Seq<char>, inputs: Combination, parts: Seq<(Seq<char>, Seq<char>)>)
    requires
        parts_plain(parts),
        parts_text(parts).len() <= t.len(),
        t.take(parts_text(parts).len() as int) == parts_text(parts),
    ensures
        interpolate(t, inputs) == interpolate_from(
            t,
            inputs,
            parts_text(parts).len() as int,
            substituted(parts, inputs),
            unknown_spans(t, parts, inputs),
        ),
    decreases parts.len(),
{
    if parts.len() > 0 {
        let whole = parts_text(parts);
        let front = parts.drop_last();
        let ft = parts_text(front);
        let (text, key) = parts.last();
        assert forall|i: int| 0 <= i < front.len() implies !(#[trigger] front[i]).0.contains('{')
            && !front[i].1.contains('}') by {
            assert(front[i] == parts[i]);
        }
        assert(whole == ft + text + seq!['{'] + key + seq!['}']);
        assert(t.take(ft.len() as int) =~= ft) by {
            assert forall|j: int| 0 <= j < ft.len() implies t[j] == ft[j] by {
                assert(t.take(whole.len() as int)[j] == whole[j]);
            }
        }
        lemma_interpolate_parts(t, inputs, front);
        assert(!parts[parts.len() - 1].0.contains('{'));
        assert(t.subrange(ft.len() as int, ft.len() + text.len() + key.len() + 2int) =~= text + seq!['{'] + key
            + seq!['}']) by {
            assert forall|j: int| 0 <= j < text.len() + key.len() + 2 implies t[ft.len() + j] == (text + seq!['{']
                + key + seq!['}'])[j] by {
                assert(t.take(whole.len() as int)[ft.len() + j] == whole[ft.len() + j]);
            }
        }
        lemma_interpolate_part(
            t,
            inputs,
            ft.len() as int,
            substituted(front, inputs),
            unknown_spans(t, front, inputs),
            text,
            key,
        );
        if lookup(inputs, key) is None {
            assert(substituted(front, inputs) + text + Seq::<char>::empty() =~= substituted(front, inputs) + text);
        }
    }
}

/// Interpolating a template of literal texts and placeholders, where no text
/// holds `{` and no key holds `}`, ending in a text `tail` without `{`: the
/// texts are copied as they are and each placeholder of a known key takes its
/// value; if some keys are unknown, all their placeholders are reported at
/// once, in order, with the available keys.
pub proof fn lemma_interpolate_closed(
    template: Seq<char>,
    inputs: Combination,
    parts: Seq<(Seq<char>, Seq<char>)>,
    tail: Seq<char>,
)
    requires
        parts_plain(parts),
        !tail.contains('{'),
        template == parts_text(parts) + tail,
    ensures
        interpolate(template, inputs) == if unknown_spans(template, parts, inputs).len() == 0 {
            Ok::<Seq<char>, ResolverErrorModel>(substituted(parts, inputs) + tail)
        } else {
            Err(
                ResolverErrorModel::UnknownPlaceholder {
                    template,
                    unknown: unknown_spans(template, parts, inputs),
                    available: join(keys_of(inputs), ", "@),
                },
            )
        },
{
    let n = parts_text(parts).len() as int;
    assert(template.take(n) =~= parts_text(parts));
    lemma_interpolate_parts(template, inputs, parts);
    assert forall|j: int| n <= j < template.len() implies template[j] != '{' by {
        assert(template[j] == tail[j - n]);
        lemma_not_at(tail, '{', j - n);
    }
    lemma_find_char_from_skip(template, '{', n, template.len() as int);
    assert(template.subrange(n, template.len() as int) =~= tail);
}

/// A `{` that no `}` follows is reported, at its byte offset, whatever
/// unknown placeholders come before it.
pub proof fn lemma_interpolate_unclosed(
    template: Seq<char>,
    inputs: Combination,
    parts: Seq<(Seq<char>, Seq<char>)>,
    text: Seq<char>,
    rest: Seq<char>,
)
    requires
        parts_plain(parts),
        !text.contains('{'),
        !rest.contains('}'),
        template == parts_text(parts) + text + seq!['{'] + rest,
    ensures
        ({
            let open: int = parts_text(parts).len() as int + text.len();
            interpolate(template, inputs) == Err::<Seq<char>, ResolverErrorModel>(
                ResolverErrorModel::UnterminatedPlaceholder { template, placeholder: byte_span(template, open, open + 1) },
            )
        }),
{
    let n = parts_text(parts).len() as int;
    let open = n + text.len();
    assert(template.take(n) =~= parts_text(parts));
    lemma_interpolate_parts(template, inputs, parts);
    assert forall|j: int| n <= j < open implies template[j] != '{' by {
        assert(template[j] == text[j - n]);
        lemma_not_at(text, '{', j - n);
    }
    lemma_find_char_from_skip(template, '{', n, open);
    assert(template[open] == '{');
    assert(find_char_from(template, '{', open) == Some(open));
    assert forall|j: int| open <= j < template.len() implies template[j] != '}' by {
        if j > open {
            assert(template[j] == rest[j - open - 1]);
            lemma_not_at(rest, '}', j - open - 1);
        }
    }
    lemma_find_char_from_skip(template, '}', open, template.len() as int);
}

/// When every key of the parts is known, no placeholder is reported.
pub proof fn lemma_known_keys_report_nothing(
    template: Seq<char>,
    parts: Seq<(Seq<char>, Seq<char>)>,
    inputs: Combination,
)
    requires
        forall|i: int| 0 <= i < parts.len() ==> lookup(inputs, (#[trigger] parts[i]).1) is Some,
    ensures
        unknown_spans(template, parts, inputs).len() == 0,
    decreases parts.len(),
{
    if parts.len() > 0 {
        let front = parts.drop_last();
        assert forall|i: int| 0 <= i < front.len() implies lookup(inputs, (#[trigger] front[i]).1) is Some by {
            assert(front[i] == parts[i]);
        }
        lemma_known_keys_report_nothing(template, front, inputs);
        assert(lookup(inputs, parts[parts.len() - 1].1) is Some);
    }
}

/// The models of a sequence of instances.
pub open spec fn instance_models(instances: Seq<ResolvedInstance>) -> Seq<InstanceModel> {
    instances.map_values(|i: ResolvedInstance| i@)
}

/// `text` with every character that is not alphanumeric replaced by `_`.
fn sanitize_text(text: &str) -> (sanitized: String)
    ensures
        sanitized@ == sanitize(text@),
{
    let chars = chars_of(text);
    let mut out: Vec<char> = Vec::new();
    let mut k: usize = 0;
    while k < chars.len()
        invariant
            chars@ == text@,
            k <= chars@.len(),
            out@ == sanitize(chars@.take(k as int)),
        decreases chars@.len() - k,
    {
        let c = chars[k];
        if char_is_alphanumeric(c) {
            out.push(c);
        } else {
            out.push('_');
        }
        assert(sanitize(chars@.take(k + 1)) =~= sanitize(chars@.take(k as int)).push(
            if is_alphanumeric(c) { c } else { '_' },
        ));
        k = k + 1;
    }
    assert(chars@.take(k as int) =~= chars@);
    string_from_chars(out.as_slice())
}

/// The ID of the instance of template `uses` for `inputs`.
fn make_instance_id(uses: &String, inputs: &SortedMap<String>) -> (id: String)
    ensures
        id@ == instance_id(uses@, text_entries(*inputs)),
{
    let n = inputs.len();
    let ghost model = text_entries(*inputs);
    let ghost sanitized_values = values_of(model).map_values(|v: Seq<char>| sanitize(v));
    proof {
        inputs.lemma_entries_of();
    }
    let mut values: Vec<String> = Vec::new();
    let mut i: usize = 0;
    while i < n
        invariant
            n == inputs.values().len(),
            model == text_entries(*inputs),
            sanitized_values == values_of(model).map_values(|v: Seq<char>| sanitize(v)),
            values_of(inputs.entries_of()) == inputs.values(),
            i <= n,
            values@.len() == i,
            forall|j: int| 0 <= j < i ==> #[trigger] values@[j]@ == sanitized_values[j],
        decreases n - i,
    {
        let value = inputs.value_at(i);
        proof {
            assert(inputs.entries_of()[i as int].1 == values_of(inputs.entries_of())[i as int]);
        }
        values.push(sanitize_text(value.as_str()));
        i = i + 1;
    }
    assert(views(values@) =~= sanitized_values);
    let joined = join_strings(&values, "-");
    let mut id = uses.clone();
    id.append("-");
    id.append(joined.as_str());
    id
}

/// A copy of an optional loader.
fn copy_loader(loader: &Option<Loader>) -> (copy: Option<Loader>)
    ensures
        loader_view(copy) == loader_view(*loader),
{
    match loader {
        Some(l) => Some(l.clone()),
        None => None,
    }
}

/// The IDs of a sequence of instances.
pub open spec fn instance_ids(models: Seq<InstanceModel>) -> Seq<Seq<char>> {
    models.map_values(|m: InstanceModel| m.id)
}

/// The index of the first ID at or after `from` that an earlier ID equals.
pub open spec fn repeated_from(ids: Seq<Seq<char>>, from: int) -> Option<int>
    decreases ids.len() - from,
{
    if from < 0 || from >= ids.len() {
        None
    } else if ids.take(from).contains(ids[from]) {
        Some(from)
    } else {
        repeated_from(ids, from + 1)
    }
}

/// The instances of a configuration: those of its matrixes, in order, as long
/// as no two of them share an ID; otherwise the first repeated ID is the error.
pub open spec fn resolve_config(templates: Seq<(Seq<char>, ShardTemplate)>, matrixes: Seq<ShardMatrix>) -> Result<
    Seq<InstanceModel>,
    ResolverErrorModel,
> {
    match resolve_matrices(templates, matrixes) {
        Err(e) => Err(e),
        Ok(models) => match repeated_from(instance_ids(models), 0) {
            Some(j) => Err(ResolverErrorModel::DuplicateInstanceId(models[j].id)),
            None => Ok(models),
        },
    }
}

/// IDs with no repeated one are all different.
proof fn lemma_no_repeat_distinct(ids: Seq<Seq<char>>, from: int)
    requires
        0 <= from,
        repeated_from(ids, from) is None,
    ensures
        forall|i: int, j: int| 0 <= i < j < ids.len() && from <= j ==> ids[i] != ids[j],
    decreases ids.len() - from,
{
    if from < ids.len() {
        lemma_no_repeat_distinct(ids, from + 1);
        assert forall|i: int| 0 <= i < from implies ids[i] != ids[from] by {
            assert(ids.take(from)[i] == ids[i]);
            if ids[i] == ids[from] {
                assert(ids.take(from).contains(ids[from]));
            }
        }
    }
}

/// The instances of a configuration that resolves all have different IDs.
pub proof fn lemma_resolved_ids_unique(templates: Seq<(Seq<char>, ShardTemplate)>, matrixes: Seq<ShardMatrix>)
    requires
        resolve_config(templates, matrixes) is Ok,
    ensures
        instance_ids(resolve_config(templates, matrixes)->Ok_0).no_duplicates(),
{
    let ids = instance_ids(resolve_config(templates, matrixes)->Ok_0);
    lemma_no_repeat_distinct(ids, 0);
    assert forall|i: int, j: int| 0 <= i < ids.len() && 0 <= j < ids.len() && i != j implies ids[i] != ids[j] by {
        if i > j {
            assert(ids[j] != ids[i]);
        }
    }
}

/// Resolves every matrix of the configuration into its instances, in order.
///
/// Each matrix must use a defined template; each combination of its inputs
/// must give the `minecraft` input, and the template's name must interpolate
/// with it. The first failure, in matrix and then combination order, is
/// returned. Then no two instances may share an ID: the first ID that repeats
/// an earlier one is reported.
pub fn resolve_instances(config: &ShardConfig) -> (result: Result<Vec<ResolvedInstance>, InstanceResolverError>)
    ensures
        match resolve_config(config.templates.entries_of(), config.matrixes@) {
            Ok(models) => result is Ok && instance_models(result->Ok_0@) == models,
            Err(e) => result is Err && result->Err_0@ == e,
        },
        result matches Ok(instances) ==> instance_ids(instance_models(instances@)).no_duplicates(),
{
    let instances = match resolve_all_matrices(config) {
        Ok(instances) => instances,
        Err(e) => return Err(e),
    };
    let ghost models = instance_models(instances@);
    assert(resolve_matrices(config.templates.entries_of(), config.matrixes@) == Ok::<
        Seq<InstanceModel>,
        ResolverErrorModel,
    >(models));
    let ghost ids = instance_ids(models);
    let mut j: usize = 0;
    while j < instances.len()
        invariant
            resolve_matrices(config.templates.entries_of(), config.matrixes@) == Ok::<
                Seq<InstanceModel>,
                ResolverErrorModel,
            >(models),
            models == instance_models(instances@),
            ids == instance_ids(models),
            j <= instances@.len(),
            repeated_from(ids, 0) == repeated_from(ids, j as int),
        decreases instances@.len() - j,
    {
        let mut i: usize = 0;
        while i < j
            invariant
                resolve_matrices(config.templates.entries_of(), config.matrixes@) == Ok::<
                    Seq<InstanceModel>,
                    ResolverErrorModel,
                >(models),
                repeated_from(ids, 0) == repeated_from(ids, j as int),
                models == instance_models(instances@),
                ids == instance_ids(models),
                i <= j < instances@.len(),
                forall|k: int| 0 <= k < i ==> ids[k] != ids[j as int],
            decreases j - i,
        {
            proof {
                assert(ids[i as int] == instances@[i as int].id@);
                assert(ids[j as int] == instances@[j as int].id@);
            }
            if same_text(instances[i].id.as_str(), instances[j].id.as_str()) {
                proof {
                    assert(ids.take(j as int)[i as int] == ids[i as int]);
                    assert(ids.take(j as int).contains(ids[j as int]));
                    lemma_resolved_ids_error(config.templates.entries_of(), config.matrixes@, models, j as int);
                }
                return Err(InstanceResolverError::DuplicateInstanceId(instances[j].id.clone()));
            }
            i = i + 1;
        }
        proof {
            assert forall|k: int| 0 <= k < j implies ids.take(j as int)[k] != ids[j as int] by {
                assert(ids.take(j as int)[k] == ids[k]);
            }
            assert(!ids.take(j as int).contains(ids[j as int]));
        }
        j = j + 1;
    }
    proof {
        lemma_resolved_ids_unique(config.templates.entries_of(), config.matrixes@);
    }
    Ok(instances)
}

/// Why `resolve_config` fails at a repeated ID.
proof fn lemma_resolved_ids_error(
    templates: Seq<(Seq<char>, ShardTemplate)>,
    matrixes: Seq<ShardMatrix>,
    models: Seq<InstanceModel>,
    j: int,
)
    requires
        resolve_matrices(templates, matrixes) == Ok::<Seq<InstanceModel>, ResolverErrorModel>(models),
        repeated_from(instance_ids(models), 0) == repeated_from(instance_ids(models), j),
        0 <= j < models.len(),
        instance_ids(models).take(j).contains(instance_ids(models)[j]),
    ensures
        resolve_config(templates, matrixes) == Err::<Seq<InstanceModel>, ResolverErrorModel>(
            ResolverErrorModel::DuplicateInstanceId(models[j].id),
        ),
{
}

/// What an instance made from template `template`, named `uses`, holds: the
/// template's name, that template's loader (a latest version included) and
/// mods, its name interpolated from its inputs, its `minecraft` input as its
/// Minecraft version, and as its ID the template's name, `-`, and the values
/// of all its inputs in key order, each with every character that is not
/// alphanumeric made `_`, joined by `-`.
pub open spec fn made_from(template: ShardTemplate, uses: Seq<char>, instance: InstanceModel) -> bool {
    &&& instance.template == uses
    &&& instance.loader == loader_view(template.loader)
    &&& instance.mods == text_list_entries(template.mods)
    &&& interpolate(template.name@, instance.inputs) == Ok::<Seq<char>, ResolverErrorModel>(instance.name)
    &&& lookup(instance.inputs, "minecraft"@) == Some(instance.minecraft_version)
    &&& instance.id == uses + "-"@ + join(
        values_of(instance.inputs).map_values(
            |v: Seq<char>| v.map_values(|c: char| if is_alphanumeric(c) { c } else { '_' }),
        ),
        "-"@,
    )
}

/// Each instance that the combinations of a template give is made from that
/// template.
proof fn lemma_combination_instances(template: ShardTemplate, uses: Seq<char>, combinations: Seq<Combination>)
    requires
        resolve_combinations(template, uses, combinations) is Ok,
    ensures
        forall|i: int|
            0 <= i < resolve_combinations(template, uses, combinations)->Ok_0.len() ==> made_from(
                template,
                uses,
                #[trigger] resolve_combinations(template, uses, combinations)->Ok_0[i],
            ),
    decreases combinations.len(),
{
    if combinations.len() > 0 {
        let front = combinations.drop_last();
        lemma_combination_instances(template, uses, front);
        let done = resolve_combinations(template, uses, front)->Ok_0;
        let all = resolve_combinations(template, uses, combinations)->Ok_0;
        let c = combinations.last();
        let instance = resolve_combination(template, uses, c)->Ok_0;
        assert(all == done.push(instance));
        assert(values_of(c).map_values(|v: Seq<char>| sanitize(v)) =~= values_of(c).map_values(
            |v: Seq<char>| v.map_values(|ch: char| if is_alphanumeric(ch) { ch } else { '_' }),
        ));
        assert(made_from(template, uses, instance));
        assert forall|i: int| 0 <= i < all.len() implies made_from(template, uses, #[trigger] all[i]) by {
            if i < done.len() {
                assert(all[i] == done[i]);
            }
        }
    }
}

/// Every instance of a configuration that resolves is made from a defined
/// template, the one that its `template` names: it carries exactly that
/// template's loader (a latest version included) and mods, its name is the
/// template's name interpolated from its inputs, its Minecraft version is its
/// `minecraft` input, and its ID is the template's name, `-`, and the values
/// of all its inputs in key order, each with every character that is not
/// alphanumeric made `_`, joined by `-`.
pub proof fn lemma_resolved_instances(templates: Seq<(Seq<char>, ShardTemplate)>, matrixes: Seq<ShardMatrix>)
    requires
        resolve_config(templates, matrixes) is Ok,
    ensures
        forall|i: int|
            0 <= i < resolve_config(templates, matrixes)->Ok_0.len() ==> {
                let instance = #[trigger] resolve_config(templates, matrixes)->Ok_0[i];
                &&& lookup(templates, instance.template) is Some
                &&& made_from(lookup(templates, instance.template)->Some_0, instance.template, instance)
            },
{
    lemma_matrices_instances(templates, matrixes);
}

/// Every instance of the matrixes is made from the template its matrix uses.
proof fn lemma_matrices_instances(templates: Seq<(Seq<char>, ShardTemplate)>, matrixes: Seq<ShardMatrix>)
    requires
        resolve_matrices(templates, matrixes) is Ok,
    ensures
        forall|i: int|
            0 <= i < resolve_matrices(templates, matrixes)->Ok_0.len() ==> {
                let instance = #[trigger] resolve_matrices(templates, matrixes)->Ok_0[i];
                &&& lookup(templates, instance.template) is Some
                &&& made_from(lookup(templates, instance.template)->Some_0, instance.template, instance)
            },
    decreases matrixes.len(),
{
    if matrixes.len() > 0 {
        let front = matrixes.drop_last();
        let m = matrixes.last();
        lemma_matrices_instances(templates, front);
        let done = resolve_matrices(templates, front)->Ok_0;
        let template = lookup(templates, m.uses@)->Some_0;
        let combinations = expand_axes(text_list_entries(m.with));
        lemma_combination_instances(template, m.uses@, combinations);
        let more = resolve_combinations(template, m.uses@, combinations)->Ok_0;
        let all = resolve_matrices(templates, matrixes)->Ok_0;
        assert(all == done + more);
        assert forall|i: int| 0 <= i < all.len() implies {
            let instance = #[trigger] all[i];
            &&& lookup(templates, instance.template) is Some
            &&& made_from(lookup(templates, instance.template)->Some_0, instance.template, instance)
        } by {
            if i < done.len() {
                assert(all[i] == done[i]);
            } else {
                assert(all[i] == more[i - done.len()]);
                assert(made_from(template, m.uses@, more[i - done.len()]));
            }
        }
    }
}

/// Resolves every matrix of the configuration into its instances, in order,
/// as [`resolve_matrices`] states.
fn resolve_all_matrices(config: &ShardConfig) -> (result: Result<Vec<ResolvedInstance>, InstanceResolverError>)
    ensures
        match resolve_matrices(config.templates.entries_of(), config.matrixes@) {
            Ok(models) => result is Ok && instance_models(result->Ok_0@) == models,
            Err(e) => result is Err && result->Err_0@ == e,
        },
{
    let ghost templates = config.templates.entries_of();
    let mut instances: Vec<ResolvedInstance> = Vec::new();
    let mut mi: usize = 0;
    proof {
        assert(config.matrixes@.take(0) =~= Seq::<ShardMatrix>::empty());
        assert(instance_models(instances@) =~= Seq::<InstanceModel>::empty());
    }
    while mi < config.matrixes.len()
        invariant
            templates == config.templates.entries_of(),
            mi <= config.matrixes@.len(),
            resolve_matrices(templates, config.matrixes@.take(mi as int)) == Ok::<
                Seq<InstanceModel>,
                ResolverErrorModel,
            >(instance_models(instances@)),
        decreases config.matrixes@.len() - mi,
    {
        let matrix = &config.matrixes[mi];
        let ghost done = instance_models(instances@);
        proof {
            assert(config.matrixes@.take(mi + 1).drop_last() =~= config.matrixes@.take(mi as int));
            assert(config.matrixes@.take(mi + 1).last() == *matrix);
        }
        let template = match config.templates.get(matrix.uses.as_str()) {
            Some(t) => t,
            None => {
                let error = InstanceResolverError::UndefinedTemplate(matrix.uses.clone());
                proof {
                    lemma_matrices_error_persists(templates, config.matrixes@, mi + 1, error@);
                }
                return Err(error);
            },
        };
        let combinations = expand_inputs(&matrix.with);
        let ghost models = combination_models(combinations@);
        let mut ci: usize = 0;
        proof {
            assert(models.take(0) =~= Seq::<Combination>::empty());
            assert(done + Seq::<InstanceModel>::empty() =~= done);
        }
        while ci < combinations.len()
            invariant
                templates == config.templates.entries_of(),
                mi < config.matrixes@.len(),
                *matrix == config.matrixes@[mi as int],
                lookup(templates, matrix.uses@) == Some(*template),
                models == combination_models(combinations@),
                models == expand_axes(text_list_entries(matrix.with)),
                ci <= combinations@.len(),
                resolve_matrices(templates, config.matrixes@.take(mi as int)) == Ok::<
                    Seq<InstanceModel>,
                    ResolverErrorModel,
                >(done),
                resolve_combinations(*template, matrix.uses@, models.take(ci as int)) matches Ok(so_far)
                    && instance_models(instances@) == done + so_far,
            decreases combinations@.len() - ci,
        {
            let combination = &combinations[ci];
            let ghost inputs = text_entries(*combination);
            let ghost so_far = resolve_combinations(*template, matrix.uses@, models.take(ci as int))->Ok_0;
            proof {
                assert(models[ci as int] == inputs);
                assert(models.take(ci + 1).drop_last() =~= models.take(ci as int));
                assert(models.take(ci + 1).last() == inputs);
                crate::sorted_map::lemma_text_lookup(*combination, "minecraft"@);
            }
            let minecraft_version = match combination.get("minecraft") {
                Some(v) => v.clone(),
                None => {
                    let error = InstanceResolverError::MissingMinecraftVersion(matrix.uses.clone());
                    proof {
                        lemma_combinations_error_persists(*template, matrix.uses@, models, ci + 1, error@);
                        assert(config.matrixes@.take(mi + 1).drop_last() =~= config.matrixes@.take(mi as int));
                        assert(config.matrixes@.take(mi + 1).last() == *matrix);
                        lemma_matrices_error_persists(templates, config.matrixes@, mi + 1, error@);
                    }
                    return Err(error);
                },
            };
            let id = make_instance_id(&matrix.uses, combination);
            let name = match interpolate_string(template.name.as_str(), combination) {
                Ok(name) => name,
                Err(e) => {
                    proof {
                        lemma_combinations_error_persists(*template, matrix.uses@, models, ci + 1, e@);
                        assert(config.matrixes@.take(mi + 1).drop_last() =~= config.matrixes@.take(mi as int));
                        assert(config.matrixes@.take(mi + 1).last() == *matrix);
                        lemma_matrices_error_persists(templates, config.matrixes@, mi + 1, e@);
                    }
                    return Err(e);
                },
            };
            let instance = ResolvedInstance {
                id,
                name,
                loader: copy_loader(&template.loader),
                minecraft_version,
                mods: template.mods.duplicate(),
                source: InstanceSource { template: matrix.uses.clone(), inputs: combination.duplicate() },
            };
            let ghost before = instance_models(instances@);
            instances.push(instance);
            proof {
                assert(instance_models(instances@) =~= before.push(instance@));
                assert(resolve_combination(*template, matrix.uses@, inputs) == Ok::<
                    InstanceModel,
                    ResolverErrorModel,
                >(instance@));
                assert(done + so_far.push(instance@) =~= (done + so_far).push(instance@));
            }
            ci = ci + 1;
        }
        proof {
            assert(models.take(ci as int) =~= models);
        }
        mi = mi + 1;
    }
    proof {
        assert(config.matrixes@.take(mi as int) =~= config.matrixes@);
    }
    Ok(instances)
}

impl InstanceResolverError {
    /// The message describing this error.
    pub fn to_string(&self) -> (message: String)
        ensures
            message@ == resolver_error_message(self@),
    {
        match self {
            InstanceResolverError::UndefinedTemplate(name) => {
                let mut message = String::from_str("undefined template '");
                message.append(name.as_str());
                message.append("'");
                message
            },
            InstanceResolverError::MissingMinecraftVersion(name) => {
                let mut message = String::from_str("matrix using template '");
                message.append(name.as_str());
                message.append("' does not define any minecraft versions");
                message
            },
            InstanceResolverError::UnknownPlaceholder { .. } => String::from_str(
                "unknown placeholder found in template string",
            ),
            InstanceResolverError::UnterminatedPlaceholder { .. } => String::from_str(
                "unterminated placeholder in template string",
            ),
            InstanceResolverError::DuplicateInstanceId(id) => {
                let mut message = String::from_str("duplicate instance id '");
                message.append(id.as_str());
                message.append("'");
                message
            },
        }
    }
}

/// The message of a resolution error.
pub open spec fn resolver_error_message(e: ResolverErrorModel) -> Seq<char> {
    match e {
        ResolverErrorModel::UndefinedTemplate(name) => "undefined template '"@ + name + "'"@,
        ResolverErrorModel::MissingMinecraftVersion(name) => "matrix using template '"@ + name
            + "' does not define any minecraft versions"@,
        ResolverErrorModel::UnknownPlaceholder { .. } => "unknown placeholder found in template string"@,
        ResolverErrorModel::UnterminatedPlaceholder { .. } => "unterminated placeholder in template string"@,
        ResolverErrorModel::DuplicateInstanceId(id) => "duplicate instance id '"@ + id + "'"@,
    }
}

} // verus!
