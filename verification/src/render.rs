//! The writer: serializes a configuration back to INI text.
//!
//! For each group, in enumeration order, a `[group]` header line, then one
//! `variable = value` line per variable of the group, with no blank
//! separator lines. The order is the store's enumeration order (first
//! occurrence), a deliberate, documented choice.

use vstd::prelude::*;
use vstd::string::StringExecFns;
use crate::config::Config;
use crate::config::groups_spec;
use crate::config::map_of;
use crate::config::vars_in_group_spec;
use crate::config::views_of;

verus! {

/// The rendering of the (variable, value) pairs of one group: one
/// `variable = value` line each.
pub open spec fn render_pairs_spec(ps: Seq<(Seq<char>, Seq<char>)>) -> Seq<char>
    decreases ps.len(),
{
    if ps.len() == 0 {
        Seq::empty()
    } else {
        render_pairs_spec(ps.drop_last()) + ps.last().0 + " = "@ + ps.last().1 + "\n"@
    }
}

/// The pairs of one group: its variables in enumeration order, each with
/// the value the map holds for it.
pub open spec fn pairs_of_spec(
    entries: Seq<(Seq<char>, Seq<char>, Seq<char>)>,
    g: Seq<char>,
) -> Seq<(Seq<char>, Seq<char>)> {
    vars_in_group_spec(entries, g).map_values(|v: Seq<char>| (v, map_of(entries)[(g, v)]))
}

/// The rendering of the groups `gs`: for each, a header line then its
/// pairs.
pub open spec fn render_groups_spec(
    entries: Seq<(Seq<char>, Seq<char>, Seq<char>)>,
    gs: Seq<Seq<char>>,
) -> Seq<char>
    decreases gs.len(),
{
    if gs.len() == 0 {
        Seq::empty()
    } else {
        render_groups_spec(entries, gs.drop_last()) + "["@ + gs.last() + "]\n"@
            + render_pairs_spec(pairs_of_spec(entries, gs.last()))
    }
}

/// The INI text of a configuration.
pub open spec fn render_spec(entries: Seq<(Seq<char>, Seq<char>, Seq<char>)>) -> Seq<char> {
    render_groups_spec(entries, groups_spec(entries))
}

impl Config {
    /// The INI text of this configuration: for each group a `[group]`
    /// header line, then one `variable = value` line per variable.
    pub fn to_ini_string(&self) -> (r: String)
        ensures
            r@ == render_spec(self.entries()),
    {
        let gs = self.groups();
        let mut out = String::new();
        let mut i: usize = 0;
        let n = gs.len();
        while i < n
            invariant
                n == gs@.len(),
                i <= n,
                views_of(gs@) == groups_spec(self.entries()),
                out@ == render_groups_spec(self.entries(), views_of(gs@).take(i as int)),
            decreases n - i,
        {
            let g = &gs[i];
            proof {
                assert(views_of(gs@)[i as int] == g@);
            }
            out.append("[");
            out.append(g.as_str());
            out.append("]\n");
            let ghost header_done = out@;
            let pairs = self.group_by_key_value(g.as_str());
            let ghost pview = pairs_of_spec(self.entries(), g@);
            proof {
                assert(pview.len() == pairs@.len());
                assert(forall|j: int|
                    0 <= j < pairs@.len() ==> #[trigger] pview[j] == (
                    pairs@[j].0@,
                    pairs@[j].1@,
                ));
            }
            let mut jj: usize = 0;
            let m = pairs.len();
            while jj < m
                invariant
                    m == pairs@.len(),
                    jj <= m,
                    pview.len() == pairs@.len(),
                    forall|j: int|
                        0 <= j < pairs@.len() ==> #[trigger] pview[j] == (
                        pairs@[j].0@,
                        pairs@[j].1@,
                    ),
                    out@ == header_done + render_pairs_spec(pview.take(jj as int)),
                decreases m - jj,
            {
                let var = &pairs[jj].0;
                let val = &pairs[jj].1;
                out.append(var.as_str());
                out.append(" = ");
                out.append(val.as_str());
                out.append("\n");
                proof {
                    assert(pview.take(jj as int + 1).drop_last() =~= pview.take(jj as int));
                    assert(pview.take(jj as int + 1).last() == pview[jj as int]);
                    assert(render_pairs_spec(pview.take(jj as int + 1)) == render_pairs_spec(
                        pview.take(jj as int),
                    ) + pview[jj as int].0 + " = "@ + pview[jj as int].1 + "\n"@);
                    assert(out@ =~= header_done + render_pairs_spec(pview.take(jj as int + 1)));
                }
                jj += 1;
            }
            proof {
                let gsv = views_of(gs@);
                assert(pview.take(m as int) =~= pview);
                assert(gsv.take(i as int + 1).drop_last() =~= gsv.take(i as int));
                assert(gsv.take(i as int + 1).last() == gsv[i as int]);
                assert(render_groups_spec(self.entries(), gsv.take(i as int + 1))
                    == render_groups_spec(self.entries(), gsv.take(i as int)) + "["@ + g@ + "]\n"@
                    + render_pairs_spec(pairs_of_spec(self.entries(), g@)));
                assert(out@ =~= render_groups_spec(self.entries(), gsv.take(i as int + 1)));
            }
            i += 1;
        }
        proof {
            assert(views_of(gs@).take(n as int) =~= views_of(gs@));
        }
        out
    }
}

} // verus!
