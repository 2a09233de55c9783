//! The layout of the report: the lines to print for the duplicate groups.

use crate::aggregate::{group_views, FingerprintGroup};
use vstd::prelude::*;

verus! {

/// One line of the report.
#[derive(Debug, PartialEq, Eq)]
pub enum ReportLine<P> {
    /// A member of a group, to be printed in a quoted, unambiguous form.
    Path(P),
    /// The empty line that closes a group.
    Blank,
}

/// The line for a path.
pub open spec fn line_of<P>() -> spec_fn(P) -> ReportLine<P> {
    |path: P| ReportLine::Path(path)
}

/// The lines of one group: each member on a line of its own, then an empty
/// line.
pub open spec fn group_lines<P>() -> spec_fn((Seq<char>, Seq<P>)) -> Seq<ReportLine<P>> {
    |group: (Seq<char>, Seq<P>)| group.1.map_values(line_of()).push(ReportLine::Blank)
}

/// The lines of a report: those of its groups, one group after the other.
pub open spec fn laid_out<P>(groups: Seq<(Seq<char>, Seq<P>)>) -> Seq<ReportLine<P>> {
    groups.map_values(group_lines()).flatten()
}

/// Lays the groups out as lines, in the order of the groups and of their
/// members.
pub fn report_lines<P>(groups: Vec<FingerprintGroup<P>>) -> (lines: Vec<ReportLine<P>>)
    ensures
        lines@ == laid_out(group_views(groups@)),
{
    let mut lines: Vec<ReportLine<P>> = Vec::new();
    let ghost all = groups@;
    proof {
        assert(group_views(all.take(0)).map_values(group_lines::<P>()) =~= Seq::empty());
    }
    for group in outer: groups.into_iter()
        invariant
            outer.seq() == all,
            lines@ == laid_out(group_views(all.take(outer.index() as int))),
    {
        let ghost done = lines@;
        let ghost members = group.paths@;
        let FingerprintGroup { fingerprint: _, paths } = group;
        for path in inner: paths.into_iter()
            invariant
                inner.seq() == members,
                lines@ == done + members.take(inner.index() as int).map_values(line_of()),
        {
            proof {
                assert(members.take(inner.index() + 1).map_values(line_of()) =~= members.take(
                    inner.index() as int,
                ).map_values(line_of()).push(ReportLine::Path(path)));
            }
            lines.push(ReportLine::Path(path));
        }
        lines.push(ReportLine::Blank);
        proof {
            let earlier = group_views(all.take(outer.index() as int)).map_values(group_lines());
            assert(members.take(members.len() as int) =~= members);
            assert(group_views(all.take(outer.index() + 1)).map_values(group_lines())
                =~= earlier.push(group_lines()(group@)));
            earlier.lemma_flatten_push(group_lines()(group@));
            assert(lines@ =~= done + group_lines()(group@));
        }
    }
    proof {
        assert(all.take(all.len() as int) =~= all);
    }
    lines
}

} // verus!
