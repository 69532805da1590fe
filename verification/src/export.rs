//! A cluster tree as text, one line for each cluster.

use crate::cluster::Cluster;
use vstd::prelude::*;
use vstd::string::StringExecFns;

verus! {

/// The character of a decimal digit.
pub open spec fn digit_char(d: int) -> char {
    if d == 0 {
        '0'
    } else if d == 1 {
        '1'
    } else if d == 2 {
        '2'
    } else if d == 3 {
        '3'
    } else if d == 4 {
        '4'
    } else if d == 5 {
        '5'
    } else if d == 6 {
        '6'
    } else if d == 7 {
        '7'
    } else if d == 8 {
        '8'
    } else {
        '9'
    }
}

/// A natural number in decimal digits, without leading zeros.
pub open spec fn decimal_text(n: nat) -> Seq<char>
    decreases n,
{
    if n < 10 {
        seq![digit_char(n as int)]
    } else {
        decimal_text(n / 10).push(digit_char((n % 10) as int))
    }
}

/// The hundredths that a number of units of `1 / SCALE` comes to, rounded to
/// the nearest; a number halfway between two goes to the even one.
pub open spec fn hundredths_of(size: nat) -> nat {
    let down = size / 10_000;
    let rest = size % 10_000;
    if rest > 5_000 || (rest == 5_000 && down % 2 == 1) {
        down + 1
    } else {
        down
    }
}

/// A score in decimal digits, rounded to two decimal places.
pub open spec fn score_text(score: i64) -> Seq<char> {
    let size: nat = if score < 0 {
        (-score) as nat
    } else {
        score as nat
    };
    let hundredths = hundredths_of(size);
    (if score < 0 {
        seq!['-']
    } else {
        Seq::<char>::empty()
    }) + decimal_text(hundredths / 100) + seq!['.'] + seq![
        digit_char(((hundredths % 100) / 10) as int),
        digit_char((hundredths % 10) as int),
    ]
}

/// The line of a cluster: its id, its anchor, the number of its members and
/// its significance, after `prefix`.
pub open spec fn line_text(c: Cluster, prefix: Seq<char>) -> Seq<char> {
    prefix + "Cluster "@ + decimal_text(c.id as nat) + " (anchor: "@ + decimal_text(
        c.anchor_node_id as nat,
    ) + ", "@ + decimal_text(c.member_ids@.len()) + " nodes, sig: "@ + score_text(c.significance)
        + ")\n"@
}

/// The lines of a cluster and of the clusters below it, each level two
/// blanks further in than the one above.
pub open spec fn tree_text(c: Cluster, prefix: Seq<char>) -> Seq<char>
    decreases c,
{
    line_text(c, prefix) + forest_text(c.sub_clusters@, prefix + "  "@)
}

/// The lines of the trees of a forest, one tree after the other.
pub open spec fn forest_text(forest: Seq<Cluster>, prefix: Seq<char>) -> Seq<char>
    decreases forest,
{
    if forest.len() == 0 {
        Seq::empty()
    } else {
        forest_text(forest.drop_last(), prefix) + tree_text(forest.last(), prefix)
    }
}

/// The text of a decimal digit.
pub fn digit_text(d: u64) -> (r: &'static str)
    requires
        d < 10,
    ensures
        r@ == seq![digit_char(d as int)],
{
    proof {
        reveal_strlit("0");
        reveal_strlit("1");
        reveal_strlit("2");
        reveal_strlit("3");
        reveal_strlit("4");
        reveal_strlit("5");
        reveal_strlit("6");
        reveal_strlit("7");
        reveal_strlit("8");
        reveal_strlit("9");
    }
    let r: &'static str = if d == 0 {
        "0"
    } else if d == 1 {
        "1"
    } else if d == 2 {
        "2"
    } else if d == 3 {
        "3"
    } else if d == 4 {
        "4"
    } else if d == 5 {
        "5"
    } else if d == 6 {
        "6"
    } else if d == 7 {
        "7"
    } else if d == 8 {
        "8"
    } else {
        "9"
    };
    assert(r@ =~= seq![digit_char(d as int)]);
    r
}

/// Writes a natural number in decimal digits to the end of `out`.
pub fn write_decimal(out: &mut String, n: u64)
    ensures
        final(out)@ == old(out)@ + decimal_text(n as nat),
    decreases n,
{
    if n >= 10 {
        write_decimal(out, n / 10);
    }
    let ghost before = out@;
    out.append(digit_text(n % 10));
    proof {
        if n >= 10 {
            assert(out@ =~= old(out)@ + decimal_text((n / 10) as nat).push(
                digit_char((n % 10) as int),
            ));
        } else {
            assert(out@ =~= old(out)@ + seq![digit_char(n as int)]);
        }
    }
}

/// Writes a score to the end of `out`, rounded to two decimal places.
pub fn write_score(out: &mut String, score: i64)
    ensures
        final(out)@ == old(out)@ + score_text(score),
{
    let size: u64 = if score < 0 {
        (-(score as i128)) as u64
    } else {
        score as u64
    };
    let down: u64 = size / 10_000;
    let rest: u64 = size % 10_000;
    let hundredths: u64 = if rest > 5_000 || (rest == 5_000 && down % 2 == 1) {
        down + 1
    } else {
        down
    };
    proof {
        reveal_strlit("-");
        reveal_strlit(".");
    }
    if score < 0 {
        out.append("-");
    }
    write_decimal(out, hundredths / 100);
    out.append(".");
    out.append(digit_text((hundredths % 100) / 10));
    out.append(digit_text(hundredths % 10));
    proof {
        assert("-"@ =~= seq!['-']);
        assert("."@ =~= seq!['.']);
        assert(out@ =~= old(out)@ + score_text(score));
    }
}

/// Writes the lines of a cluster and of the clusters below it to the end of
/// `out`, each line after `prefix` and as many pairs of blanks as the
/// cluster lies below the first.
pub fn write_tree(out: &mut String, cluster: &Cluster, prefix: &str)
    ensures
        final(out)@ == old(out)@ + tree_text(*cluster, prefix@),
    decreases cluster,
{
    out.append(prefix);
    out.append("Cluster ");
    write_decimal(out, cluster.id);
    out.append(" (anchor: ");
    write_decimal(out, cluster.anchor_node_id);
    out.append(", ");
    write_decimal(out, cluster.member_ids.len() as u64);
    out.append(" nodes, sig: ");
    write_score(out, cluster.significance);
    out.append(")\n");
    assert(out@ =~= old(out)@ + line_text(*cluster, prefix@));
    let mut deeper: String = String::from_str(prefix);
    deeper.append("  ");
    let ghost start = out@;
    let n: usize = cluster.sub_clusters.len();
    let mut i: usize = 0;
    assert(cluster.sub_clusters@.take(0) =~= Seq::<Cluster>::empty());
    while i < n
        invariant
            i <= n,
            n == cluster.sub_clusters.len(),
            deeper@ == prefix@ + "  "@,
            out@ == start + forest_text(cluster.sub_clusters@.take(i as int), deeper@),
        decreases n - i,
    {
        let ghost grown = cluster.sub_clusters@.take(i + 1);
        assert(grown.drop_last() =~= cluster.sub_clusters@.take(i as int));
        assert(grown.last() == cluster.sub_clusters@[i as int]);
        assert(forest_text(grown, deeper@) == forest_text(grown.drop_last(), deeper@) + tree_text(
            grown.last(),
            deeper@,
        ));
        write_tree(out, &cluster.sub_clusters[i], deeper.as_str());
        assert(out@ =~= start + forest_text(grown, deeper@));
        i += 1;
    }
    assert(cluster.sub_clusters@.take(n as int) =~= cluster.sub_clusters@);
    assert(out@ =~= old(out)@ + tree_text(*cluster, prefix@));
}

/// A cluster tree as text: one line for each cluster, with its id, its
/// anchor, the number of its members and its significance to two decimal
/// places; the line of a
/// sub-cluster starts two blanks further in than that of its parent.
pub fn export_cluster_tree(cluster: &Cluster) -> (r: String)
    ensures
        r@ == tree_text(*cluster, Seq::empty()),
{
    let mut out: String = String::new();
    proof {
        reveal_strlit("");
    }
    write_tree(&mut out, cluster, "");
    assert(""@ =~= Seq::<char>::empty());
    assert(out@ =~= tree_text(*cluster, Seq::empty()));
    out
}

} // verus!
