use crate::data::metrics::{Metrics, Rate, MICRO};
use crate::data::tree::{lemma_view_children, FileNode, NodeView};
use crate::numbers::{
    checked_lcm, gcd, greatest_common_divisor, lcm, lemma_divides_transitive,
    lemma_exact_division, lemma_gcd_divides, lemma_lcm, lemma_lcm_either_order,
    lemma_lcm_with_one,
};
use vstd::prelude::*;

verus! {

/// Whether a child counts where the change rate of its directory is
/// averaged: a file does, and a directory that holds lines.
pub open spec fn countable(node: NodeView) -> bool {
    !node.is_dir || node.metrics.lines > 0
}

/// The sum of what `weight` gives for each of `nodes`.
pub open spec fn total(nodes: Seq<NodeView>, weight: spec_fn(NodeView) -> nat) -> nat
    decreases nodes.len(),
{
    if nodes.len() == 0 {
        0
    } else {
        total(nodes.drop_last(), weight) + weight(nodes.last())
    }
}

/// The line count of a node.
pub open spec fn lines_weight() -> spec_fn(NodeView) -> nat {
    |node: NodeView| node.metrics.lines as nat
}

/// One for a node that counts in the average, nothing for another.
pub open spec fn count_weight() -> spec_fn(NodeView) -> nat {
    |node: NodeView|
        if countable(node) {
            1nat
        } else {
            0nat
        }
}

/// The sum of the line counts of `nodes`.
pub open spec fn lines_total(nodes: Seq<NodeView>) -> nat {
    total(nodes, lines_weight())
}

/// How many of `nodes` count in the average.
pub open spec fn countable_nodes(nodes: Seq<NodeView>) -> nat {
    total(nodes, count_weight())
}

/// The sum of the change rates of those of `nodes` that count in the
/// average, as a fraction: its numerator and its denominator, which is
/// positive.  The rates are added as fractions, each with the denominator
/// that it has.
pub open spec fn rate_sum(nodes: Seq<NodeView>) -> (int, int)
    decreases nodes.len(),
{
    if nodes.len() == 0 {
        (0, 1)
    } else {
        with_rate_of(rate_sum(nodes.drop_last()), nodes.last())
    }
}

/// The fraction `sum` with the rate of `node` added, where the node counts
/// in the average.
pub open spec fn with_rate_of(sum: (int, int), node: NodeView) -> (int, int) {
    let rate = node.metrics.change_frequency;
    if countable(node) {
        (sum.0 * rate.denom() + rate.numer() * sum.1, sum.1 * rate.denom())
    } else {
        sum
    }
}

/// Whether `rate` is the unweighted arithmetic mean of the change rates of
/// those of `nodes` that count in the average: their sum divided by their
/// number, as fractions; and zero where none counts.
pub open spec fn is_mean(rate: Rate, nodes: Seq<NodeView>) -> bool {
    let count = countable_nodes(nodes);
    let sum = rate_sum(nodes);
    if count == 0 {
        rate.numer() == 0
    } else {
        rate.numer() * (sum.1 * count) == sum.0 * rate.denom()
    }
}

/// The window over which the rate of a node is held, for a node that counts
/// and has a rate over a window; one for any other.
pub open spec fn window_of(node: NodeView) -> nat {
    if countable(node) && node.metrics.change_frequency.window_days > 0 {
        node.metrics.change_frequency.window_days as nat
    } else {
        1
    }
}

/// What a node adds to a sum of rates, in millionths of a touch per its
/// window: nothing where it does not count or has a rate over no window.
pub open spec fn micro_of(node: NodeView) -> nat {
    if countable(node) && node.metrics.change_frequency.window_days > 0 {
        node.metrics.change_frequency.micro_touches as nat
    } else {
        0
    }
}

/// A window that the window of each of `nodes` divides.
pub open spec fn common_window(nodes: Seq<NodeView>) -> nat
    decreases nodes.len(),
{
    if nodes.len() == 0 {
        1
    } else {
        lcm(common_window(nodes.drop_last()), window_of(nodes.last()))
    }
}

/// The sum of the rates of `nodes`, in millionths of a touch per `window`
/// days, a window that the window of each of them divides.
pub open spec fn scaled_sum(nodes: Seq<NodeView>, window: nat) -> nat
    decreases nodes.len(),
{
    if nodes.len() == 0 {
        0
    } else {
        scaled_sum(nodes.drop_last(), window) + micro_of(nodes.last()) * (window / window_of(
            nodes.last(),
        ))
    }
}

/// Whether the mean of the rates of `nodes` can be held: the sum of the
/// rates over their common window, and that window times their number, fit
/// the machine.
pub open spec fn mean_fits(nodes: Seq<NodeView>) -> bool {
    &&& common_window(nodes) * countable_nodes(nodes) <= u128::MAX
    &&& scaled_sum(nodes, common_window(nodes)) <= u128::MAX
}

/// The mean of the change rates of those of `nodes` that count in the
/// average, as it is held: the sum of the rates over their common window,
/// over that window times their number, both divided by their greatest
/// common divisor; zero where none counts.
pub open spec fn mean_rate(nodes: Seq<NodeView>) -> Rate {
    let count = countable_nodes(nodes);
    if count == 0 {
        Rate { micro_touches: 0, window_days: 0 }
    } else {
        let sum = scaled_sum(nodes, common_window(nodes));
        let window = common_window(nodes) * count;
        let shared = gcd(sum, window);
        Rate { micro_touches: (sum / shared) as u128, window_days: (window / shared) as u128 }
    }
}

/// The metrics of a directory with the children `nodes`: the sum of their
/// line counts, and the unweighted mean of the change rates of those that
/// count.
pub open spec fn aggregate(nodes: Seq<NodeView>) -> Metrics {
    Metrics { lines: lines_total(nodes) as usize, change_frequency: mean_rate(nodes) }
}

/// The first nodes weigh no more than all of them.
pub proof fn lemma_total_monotonic(nodes: Seq<NodeView>, n: int, weight: spec_fn(NodeView) -> nat)
    requires
        0 <= n <= nodes.len(),
    ensures
        total(nodes.take(n), weight) <= total(nodes, weight),
    decreases nodes.len() - n,
{
    if n == nodes.len() {
        assert(nodes.take(n) =~= nodes);
    } else {
        assert(nodes.drop_last().take(n) =~= nodes.take(n));
        lemma_total_monotonic(nodes.drop_last(), n, weight);
    }
}

/// The common window is positive, and the window of every node divides it.
pub proof fn lemma_common_window(nodes: Seq<NodeView>)
    ensures
        common_window(nodes) > 0,
        forall|i: int| 0 <= i < nodes.len() ==> common_window(nodes) % window_of(#[trigger] nodes[i]) == 0,
    decreases nodes.len(),
{
    if nodes.len() > 0 {
        let earlier = nodes.drop_last();
        lemma_common_window(earlier);
        lemma_lcm(common_window(earlier), window_of(nodes.last()));
        assert forall|i: int| 0 <= i < nodes.len() implies common_window(nodes) % window_of(
            #[trigger] nodes[i],
        ) == 0 by {
            if i < earlier.len() {
                assert(earlier[i] == nodes[i]);
                lemma_divides_transitive(
                    window_of(nodes[i]),
                    common_window(earlier),
                    common_window(nodes),
                );
            }
        }
    }
}

/// The common window of the first nodes is no larger than that of all.
pub proof fn lemma_common_window_monotonic(nodes: Seq<NodeView>, n: int)
    requires
        0 <= n <= nodes.len(),
    ensures
        common_window(nodes.take(n)) <= common_window(nodes),
    decreases nodes.len() - n,
{
    if n == nodes.len() {
        assert(nodes.take(n) =~= nodes);
    } else {
        assert(nodes.drop_last().take(n) =~= nodes.take(n));
        lemma_common_window_monotonic(nodes.drop_last(), n);
        lemma_common_window(nodes.drop_last());
        lemma_lcm(common_window(nodes.drop_last()), window_of(nodes.last()));
    }
}

/// The sum of the first rates is no larger than that of all.
pub proof fn lemma_scaled_sum_monotonic(nodes: Seq<NodeView>, n: int, window: nat)
    requires
        0 <= n <= nodes.len(),
    ensures
        scaled_sum(nodes.take(n), window) <= scaled_sum(nodes, window),
    decreases nodes.len() - n,
{
    if n == nodes.len() {
        assert(nodes.take(n) =~= nodes);
    } else {
        assert(nodes.drop_last().take(n) =~= nodes.take(n));
        lemma_scaled_sum_monotonic(nodes.drop_last(), n, window);
    }
}

/// The denominator of a sum of rates is positive.
pub proof fn lemma_rate_sum_positive(nodes: Seq<NodeView>)
    ensures
        rate_sum(nodes).1 > 0,
    decreases nodes.len(),
{
    if nodes.len() > 0 {
        lemma_rate_sum_positive(nodes.drop_last());
        let before = rate_sum(nodes.drop_last());
        let rate = nodes.last().metrics.change_frequency;
        assert(rate.denom() > 0) by (nonlinear_arith)
            requires
                rate.denom() == 1 || (rate.window_days > 0 && rate.denom() == rate.window_days
                    * 1_000_000),
        ;
        assert(before.1 * rate.denom() > 0) by (nonlinear_arith)
            requires
                before.1 > 0,
                rate.denom() > 0,
        ;
    }
}

/// The sum of the rates over a window that the window of each divides is
/// the sum of the rates as fractions.
pub proof fn lemma_scaled_sum_is_rate_sum(nodes: Seq<NodeView>, window: nat)
    requires
        window > 0,
        forall|i: int| 0 <= i < nodes.len() ==> window % window_of(#[trigger] nodes[i]) == 0,
    ensures
        scaled_sum(nodes, window) * rate_sum(nodes).1 == rate_sum(nodes).0 * (window * MICRO),
    decreases nodes.len(),
{
    if nodes.len() > 0 {
        let earlier = nodes.drop_last();
        let node = nodes.last();
        assert forall|i: int| 0 <= i < earlier.len() implies window % window_of(
            #[trigger] earlier[i],
        ) == 0 by {
            assert(earlier[i] == nodes[i]);
        }
        lemma_scaled_sum_is_rate_sum(earlier, window);
        assert(window % window_of(nodes[nodes.len() - 1]) == 0);
        lemma_exact_division(window, window_of(node));
        let before = rate_sum(earlier);
        let rate = node.metrics.change_frequency;
        let scale = window / window_of(node);
        let part = micro_of(node) * scale;
        let first = scaled_sum(earlier, window);
        assert(scaled_sum(nodes, window) == first + part);
        assert(rate_sum(nodes) == with_rate_of(before, node));
        if countable(node) {
            if rate.window_days > 0 {
                assert(part * rate.denom() == rate.numer() * (window * 1_000_000))
                    by (nonlinear_arith)
                    requires
                        window == scale * window_of(node),
                        part == micro_of(node) * scale,
                        rate.denom() == rate.window_days * 1_000_000,
                        rate.numer() == micro_of(node),
                        window_of(node) == rate.window_days,
                ;
            } else {
                assert(part * rate.denom() == rate.numer() * (window * 1_000_000))
                    by (nonlinear_arith)
                    requires
                        part == micro_of(node) * scale,
                        micro_of(node) == 0,
                        rate.numer() == 0,
                ;
            }
            assert((first + part) * (before.1 * rate.denom()) == (before.0 * rate.denom()
                + rate.numer() * before.1) * (window * 1_000_000)) by (nonlinear_arith)
                requires
                    first * before.1 == before.0 * (window * 1_000_000),
                    part * rate.denom() == rate.numer() * (window * 1_000_000),
            ;
        } else {
            assert(part == 0) by (nonlinear_arith)
                requires
                    part == micro_of(node) * scale,
                    micro_of(node) == 0,
            ;
        }
    }
}

/// Where the mean of the rates can be held, what is held is their mean.
pub proof fn lemma_mean_rate_is_mean(nodes: Seq<NodeView>)
    requires
        mean_fits(nodes),
    ensures
        is_mean(mean_rate(nodes), nodes),
{
    let count = countable_nodes(nodes);
    if count > 0 {
        lemma_common_window(nodes);
        let window = common_window(nodes);
        lemma_scaled_sum_is_rate_sum(nodes, window);
        lemma_rate_sum_positive(nodes);
        let sum = scaled_sum(nodes, window);
        let whole = window * count;
        assert(whole > 0) by (nonlinear_arith)
            requires
                whole == window * count,
                window > 0,
                count > 0,
        ;
        lemma_gcd_divides(sum, whole);
        let shared = gcd(sum, whole);
        lemma_exact_division(sum, shared);
        lemma_exact_division(whole, shared);
        let rate = mean_rate(nodes);
        let top = sum / shared;
        let bottom = whole / shared;
        assert(bottom > 0 && top <= sum && bottom <= whole) by (nonlinear_arith)
            requires
                whole == bottom * shared,
                sum == top * shared,
                whole > 0,
                shared > 0,
                top >= 0,
        ;
        assert(rate.numer() == top && rate.denom() == bottom * 1_000_000);
        let total_sum = rate_sum(nodes);
        assert(top * (total_sum.1 * count) == total_sum.0 * (bottom * 1_000_000))
            by (nonlinear_arith)
            requires
                sum * total_sum.1 == total_sum.0 * (window * 1_000_000),
                whole == window * count,
                sum == top * shared,
                whole == bottom * shared,
                shared > 0,
        ;
    }
}

/// A node put anywhere among others adds its weight to the total.
pub proof fn lemma_total_insert(
    nodes: Seq<NodeView>,
    at: int,
    node: NodeView,
    weight: spec_fn(NodeView) -> nat,
)
    requires
        0 <= at <= nodes.len(),
    ensures
        total(nodes.insert(at, node), weight) == total(nodes, weight) + weight(node),
    decreases nodes.len(),
{
    let longer = nodes.insert(at, node);
    if at == nodes.len() {
        assert(longer.drop_last() =~= nodes);
    } else {
        assert(longer.drop_last() =~= nodes.drop_last().insert(at, node));
        lemma_total_insert(nodes.drop_last(), at, node, weight);
    }
}

/// Rates can be added in either order.
pub proof fn lemma_with_rate_of_commutes(sum: (int, int), a: NodeView, b: NodeView)
    ensures
        with_rate_of(with_rate_of(sum, a), b) == with_rate_of(with_rate_of(sum, b), a),
{
    let x = a.metrics.change_frequency;
    let y = b.metrics.change_frequency;
    if countable(a) && countable(b) {
        assert((sum.0 * x.denom() + x.numer() * sum.1) * y.denom() + y.numer() * (sum.1
            * x.denom()) == (sum.0 * y.denom() + y.numer() * sum.1) * x.denom() + x.numer() * (
        sum.1 * y.denom())) by (nonlinear_arith);
        assert((sum.1 * x.denom()) * y.denom() == (sum.1 * y.denom()) * x.denom())
            by (nonlinear_arith);
    }
}

/// A sum of rates does not depend on where among the others a node stands.
pub proof fn lemma_rate_sum_insert(nodes: Seq<NodeView>, at: int, node: NodeView)
    requires
        0 <= at <= nodes.len(),
    ensures
        rate_sum(nodes.insert(at, node)) == with_rate_of(rate_sum(nodes), node),
        rate_sum(nodes.push(node)) == with_rate_of(rate_sum(nodes), node),
    decreases nodes.len(),
{
    let longer = nodes.insert(at, node);
    assert(nodes.push(node).drop_last() =~= nodes);
    assert(nodes.push(node).last() == node);
    if at == nodes.len() {
        assert(longer =~= nodes.push(node));
    } else {
        let earlier = nodes.drop_last();
        let last = nodes.last();
        assert(longer.drop_last() =~= earlier.insert(at, node));
        assert(longer.last() == last);
        lemma_rate_sum_insert(earlier, at, node);
        lemma_with_rate_of_commutes(rate_sum(earlier), node, last);
        assert(rate_sum(longer) == with_rate_of(rate_sum(earlier.insert(at, node)), last));
        assert(rate_sum(nodes) == with_rate_of(rate_sum(earlier), last));
    }
}

/// The common window does not depend on where among the others a node
/// stands.
pub proof fn lemma_common_window_insert(nodes: Seq<NodeView>, at: int, node: NodeView)
    requires
        0 <= at <= nodes.len(),
    ensures
        common_window(nodes.insert(at, node)) == lcm(common_window(nodes), window_of(node)),
    decreases nodes.len(),
{
    let longer = nodes.insert(at, node);
    if at == nodes.len() {
        assert(longer.drop_last() =~= nodes);
    } else {
        let earlier = nodes.drop_last();
        let last = nodes.last();
        assert(longer.drop_last() =~= earlier.insert(at, node));
        assert(longer.last() == last);
        lemma_common_window_insert(earlier, at, node);
        lemma_common_window(earlier);
        lemma_lcm_either_order(common_window(earlier), window_of(node), window_of(last));
    }
}

/// The sum of the rates over a window does not depend on where among the
/// others a node stands.
pub proof fn lemma_scaled_sum_insert(nodes: Seq<NodeView>, at: int, node: NodeView, window: nat)
    requires
        0 <= at <= nodes.len(),
    ensures
        scaled_sum(nodes.insert(at, node), window) == scaled_sum(nodes, window) + micro_of(node)
            * (window / window_of(node)),
    decreases nodes.len(),
{
    let longer = nodes.insert(at, node);
    if at == nodes.len() {
        assert(longer.drop_last() =~= nodes);
    } else {
        assert(longer.drop_last() =~= nodes.drop_last().insert(at, node));
        lemma_scaled_sum_insert(nodes.drop_last(), at, node, window);
    }
}

/// The metrics of a directory do not depend on the order of its children:
/// what is held, the lines and the mean rate, is the same with a child put
/// last as with that child put anywhere.
pub proof fn law_aggregate_does_not_depend_on_the_order(
    nodes: Seq<NodeView>,
    at: int,
    node: NodeView,
)
    requires
        0 <= at <= nodes.len(),
    ensures
        aggregate(nodes.insert(at, node)) == aggregate(nodes.push(node)),
        mean_fits(nodes.insert(at, node)) == mean_fits(nodes.push(node)),
{
    let end = nodes.len() as int;
    assert(nodes.insert(end, node) =~= nodes.push(node));
    lemma_total_insert(nodes, at, node, lines_weight());
    lemma_total_insert(nodes, end, node, lines_weight());
    lemma_total_insert(nodes, at, node, count_weight());
    lemma_total_insert(nodes, end, node, count_weight());
    lemma_common_window_insert(nodes, at, node);
    lemma_common_window_insert(nodes, end, node);
    let window = common_window(nodes.push(node));
    lemma_scaled_sum_insert(nodes, at, node, window);
    lemma_scaled_sum_insert(nodes, end, node, window);
}

/// The mean of rates does not depend on the order of the nodes: a rate is
/// the mean of nodes with one put last just where it is their mean with
/// that one put anywhere.
pub proof fn law_mean_does_not_depend_on_the_order(
    rate: Rate,
    nodes: Seq<NodeView>,
    at: int,
    node: NodeView,
)
    requires
        0 <= at <= nodes.len(),
    ensures
        is_mean(rate, nodes.insert(at, node)) == is_mean(rate, nodes.push(node)),
{
    lemma_rate_sum_insert(nodes, at, node);
    lemma_total_insert(nodes, at, node, count_weight());
    lemma_total_insert(nodes, nodes.len() as int, node, count_weight());
    assert(nodes.insert(nodes.len() as int, node) =~= nodes.push(node));
}

/// The metrics of the directory `node`, from those of its children, where
/// the sum of their lines fits the machine and the mean of their rates can
/// be held.
pub fn try_aggregate_metrics(node: &FileNode) -> (metrics: Option<Metrics>)
    ensures
        match metrics {
            Some(m) => {
                &&& lines_total(node@.children) <= usize::MAX
                &&& mean_fits(node@.children)
                &&& m == aggregate(node@.children)
                &&& m.lines == lines_total(node@.children)
                &&& is_mean(m.change_frequency, node@.children)
            },
            None => !(lines_total(node@.children) <= usize::MAX && mean_fits(node@.children)),
        },
{
    proof {
        lemma_view_children(node);
    }
    let ghost nodes = node@.children;
    let n = node.children.len();
    let mut total_lines: usize = 0;
    let mut counted: usize = 0;
    let mut window: u128 = 1;
    let mut i: usize = 0;
    while i < n
        invariant
            i <= n,
            n == nodes.len(),
            n == node.children@.len(),
            nodes == node@.children,
            forall|j: int| 0 <= j < n ==> nodes[j] == (#[trigger] node.children@[j])@,
            total_lines == lines_total(nodes.take(i as int)),
            counted == countable_nodes(nodes.take(i as int)),
            window == common_window(nodes.take(i as int)),
            window > 0,
            counted <= i,
        decreases n - i,
    {
        let child = &node.children[i];
        proof {
            lemma_view_children(child);
            assert(nodes.take(i + 1).drop_last() =~= nodes.take(i as int));
            assert(nodes.take(i + 1).last() == child@);
            lemma_total_monotonic(nodes, i + 1, lines_weight());
            lemma_total_monotonic(nodes, i + 1, count_weight());
            lemma_common_window_monotonic(nodes, i + 1);
            lemma_common_window(nodes.take(i + 1));
            lemma_common_window(nodes);
        }
        total_lines = match total_lines.checked_add(child.metrics.lines) {
            Some(lines) => lines,
            None => {
                return None;
            },
        };
        if !child.is_dir || child.metrics.lines > 0 {
            counted = counted + 1;
            let own = child.metrics.change_frequency.window_days;
            if own > 0 {
                match checked_lcm(window, own) {
                    Some(wider) => {
                        window = wider;
                    },
                    None => {
                        proof {
                            assert(common_window(nodes) * countable_nodes(nodes) > u128::MAX)
                                by (nonlinear_arith)
                                requires
                                    common_window(nodes) > u128::MAX,
                                    countable_nodes(nodes) >= 1,
                            ;
                        }
                        return None;
                    },
                }
            } else {
                proof {
                    lemma_lcm_with_one(window as nat);
                }
            }
        } else {
            proof {
                lemma_lcm_with_one(window as nat);
            }
        }
        i += 1;
    }
    proof {
        assert(nodes.take(n as int) =~= nodes);
    }
    if counted == 0 {
        proof {
            lemma_no_rate_without_countable(nodes, 1);
            lemma_window_without_countable(nodes);
            assert(common_window(nodes) * countable_nodes(nodes) == 0) by (nonlinear_arith)
                requires
                    countable_nodes(nodes) == 0,
            ;
            assert(mean_fits(nodes));
            assert(mean_rate(nodes) == Rate { micro_touches: 0, window_days: 0 });
        }
        return Some(Metrics::new(total_lines, Rate::zero()));
    }
    let whole = match window.checked_mul(counted as u128) {
        Some(whole) => whole,
        None => {
            return None;
        },
    };
    proof {
        lemma_common_window(nodes);
        assert(whole > 0) by (nonlinear_arith)
            requires
                whole == window * counted,
                window > 0,
                counted > 0,
        ;
    }
    let mut sum: u128 = 0;
    let mut j: usize = 0;
    while j < n
        invariant
            j <= n,
            n == nodes.len(),
            n == node.children@.len(),
            nodes == node@.children,
            forall|k: int| 0 <= k < n ==> nodes[k] == (#[trigger] node.children@[k])@,
            window == common_window(nodes),
            window > 0,
            forall|k: int| 0 <= k < n ==> window as nat % window_of(#[trigger] nodes[k]) == 0,
            sum == scaled_sum(nodes.take(j as int), window as nat),
        decreases n - j,
    {
        let child = &node.children[j];
        proof {
            lemma_view_children(child);
            assert(nodes.take(j + 1).drop_last() =~= nodes.take(j as int));
            assert(nodes.take(j + 1).last() == child@);
            lemma_scaled_sum_monotonic(nodes, j + 1, window as nat);
            lemma_common_window(nodes);
        }
        let own = child.metrics.change_frequency.window_days;
        if (!child.is_dir || child.metrics.lines > 0) && own > 0 {
            let part = match child.metrics.change_frequency.micro_touches.checked_mul(
                window / own,
            ) {
                Some(part) => part,
                None => {
                    return None;
                },
            };
            sum = match sum.checked_add(part) {
                Some(sum) => sum,
                None => {
                    return None;
                },
            };
        } else {
            proof {
                assert(micro_of(child@) == 0);
                assert(micro_of(child@) * (window as nat / window_of(child@)) == 0)
                    by (nonlinear_arith)
                    requires
                        micro_of(child@) == 0,
                ;
            }
        }
        j += 1;
    }
    proof {
        assert(nodes.take(n as int) =~= nodes);
        lemma_gcd_divides(sum as nat, whole as nat);
        lemma_mean_rate_is_mean(nodes);
        lemma_exact_division(sum as nat, gcd(sum as nat, whole as nat));
        lemma_exact_division(whole as nat, gcd(sum as nat, whole as nat));
    }
    let shared = greatest_common_divisor(sum, whole);
    Some(Metrics::new(total_lines, Rate { micro_touches: sum / shared, window_days: whole / shared }))
}

/// Where no node counts, there is no rate to add.
proof fn lemma_no_rate_without_countable(nodes: Seq<NodeView>, window: nat)
    requires
        countable_nodes(nodes) == 0,
    ensures
        scaled_sum(nodes, window) == 0,
    decreases nodes.len(),
{
    if nodes.len() > 0 {
        lemma_no_rate_without_countable(nodes.drop_last(), window);
        assert(micro_of(nodes.last()) * (window / window_of(nodes.last())) == 0)
            by (nonlinear_arith)
            requires
                micro_of(nodes.last()) == 0,
        ;
    }
}

/// Where no node counts, the common window is one.
proof fn lemma_window_without_countable(nodes: Seq<NodeView>)
    requires
        countable_nodes(nodes) == 0,
    ensures
        common_window(nodes) == 1,
    decreases nodes.len(),
{
    if nodes.len() > 0 {
        lemma_window_without_countable(nodes.drop_last());
        lemma_lcm_with_one(1);
    }
}

/// The metrics of the directory `node`, from those of its children: the sum
/// of their lines, and the exact mean of the rates of those that count.
pub fn aggregate_metrics(node: &FileNode) -> (metrics: Metrics)
    requires
        lines_total(node@.children) <= usize::MAX,
        mean_fits(node@.children),
    ensures
        metrics == aggregate(node@.children),
        metrics.lines == lines_total(node@.children),
        is_mean(metrics.change_frequency, node@.children),
{
    match try_aggregate_metrics(node) {
        Some(metrics) => metrics,
        None => unreached(),
    }
}

} // verus!
