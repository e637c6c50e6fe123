use vstd::prelude::*;
use crate::graph::{assoc_view, closure_map, lookup};
use crate::graph::simple_chain;
use crate::visitor::{join_arrow, rendered_chain, store_marker, SynVisitor};

verus! {

/// `d` lists every simple dependency chain from a root to its type, and only those.
pub open spec fn chains_explain(
    g: Map<Seq<char>, Seq<Seq<char>>>,
    roots: Seq<Seq<char>>,
    d: Drift,
) -> bool {
    &&& forall|j: int| 0 <= j < d.chains@.len() ==> rendered_chain(g, roots, d.name@, #[trigger] d.chains@[j]@)
    &&& forall|c: Seq<Seq<char>>|
        simple_chain(g, c, d.name@) && #[trigger] roots.contains(c[0]) ==> exists|j: int|
            0 <= j < d.chains@.len() && d.chains@[j]@ == join_arrow(seq![store_marker()] + c)
}

/// A monitored type whose digest differs from its baseline entry.
pub struct Drift {
    pub name: String,
    pub old: String,
    pub new: String,
    /// Why the type is monitored: each chain from a root to it.
    pub chains: Vec<String>,
}

/// The outcome of a run.
pub enum Report {
    /// Some wire field lacks its encoding marker; nothing was compared.
    RpcFailed,
    /// Some monitored type changed shape; the baseline must stay as it is.
    Drifted(Vec<Drift>),
    /// The new baseline to persist.
    Passed(Vec<(String, String)>),
}

impl Report {
    /// The process exit status the outcome calls for.
    pub fn exit_code(&self) -> (r: i32)
        ensures
            r == (if self is Passed { 0i32 } else { 1i32 }),
    {
        match self {
            Report::Passed(_) => 0,
            _ => 1,
        }
    }
}

pub open spec fn pair_view(p: (String, String)) -> (Seq<char>, Seq<char>) {
    (p.0@, p.1@)
}

/// The baseline entries whose type is still monitored under another digest, as
/// (name, old digest, new digest), in baseline order.
pub open spec fn drift_entries(
    old: Seq<(Seq<char>, Seq<char>)>,
    new: Map<Seq<char>, Seq<char>>,
) -> Seq<(Seq<char>, Seq<char>, Seq<char>)>
    decreases old.len(),
{
    if old.len() == 0 {
        Seq::empty()
    } else {
        let rest = drift_entries(old.drop_last(), new);
        let (k, v) = old.last();
        if new.contains_key(k) && new[k] != v {
            rest.push((k, v, new[k]))
        } else {
            rest
        }
    }
}

pub open spec fn drift_view(d: Drift) -> (Seq<char>, Seq<char>, Seq<char>) {
    (d.name@, d.old@, d.new@)
}

/// A baseline that lists only entries of the closure it is checked against shows no drift: a
/// baseline written from a run and loaded by the next run over the same sources passes.
pub proof fn lemma_baseline_round_trip(old: Seq<(Seq<char>, Seq<char>)>, new: Map<Seq<char>, Seq<char>>)
    requires
        forall|i: int| 0 <= i < old.len() ==> new.contains_key((#[trigger] old[i]).0) && new[old[i].0] == old[i].1,
    ensures
        drift_entries(old, new).len() == 0,
    decreases old.len(),
{
    if old.len() > 0 {
        assert forall|i: int| 0 <= i < old.drop_last().len() implies new.contains_key((#[trigger] old.drop_last()[i]).0)
            && new[old.drop_last()[i].0] == old.drop_last()[i].1 by {
            assert(old.drop_last()[i] == old[i]);
        }
        lemma_baseline_round_trip(old.drop_last(), new);
        assert(old.last() == old[old.len() - 1]);
    }
}

impl SynVisitor {
    /// Decides a run against the previous baseline `old`: wire errors fail first; with `update`
    /// the closure is accepted as it is; otherwise every baseline type that is still monitored
    /// under another digest is a drift, and the closure passes only when there is none.
    pub fn check_baseline(&self, old: &Vec<(String, String)>, update: bool) -> (r: Report)
        ensures
            self@.errors.len() > 0 <==> r is RpcFailed,
            r matches Report::Passed(b) ==> assoc_view(b@) == closure_map(self@.deps, self@.fingerprints, self@.roots),
            self@.errors.len() == 0 && update ==> r is Passed,
            self@.errors.len() == 0 && !update ==> {
                let d = drift_entries(old@.map_values(|p: (String, String)| pair_view(p)), closure_map(self@.deps, self@.fingerprints, self@.roots));
                &&& (d.len() == 0 <==> r is Passed)
                &&& r matches Report::Drifted(v) ==> v@.map_values(|x: Drift| drift_view(x)) == d
                    && forall|i: int| 0 <= i < v@.len() ==> chains_explain(self@.deps, self@.roots, #[trigger] v@[i])
            },
    {
        if self.has_error() {
            return Report::RpcFailed;
        }
        let new_finger = self.construct_finger_print();
        if update {
            return Report::Passed(new_finger);
        }
        let ghost nm = closure_map(self@.deps, self@.fingerprints, self@.roots);
        let ghost ov = old@.map_values(|p: (String, String)| pair_view(p));
        let mut drifts: Vec<Drift> = Vec::new();
        let mut i: usize = 0;
        proof {
            assert(drifts@.map_values(|x: Drift| drift_view(x)) =~= drift_entries(ov.take(0), nm));
        }
        while i < old.len()
            invariant
                i <= old@.len(),
                ov == old@.map_values(|p: (String, String)| pair_view(p)),
                assoc_view(new_finger@) == nm,
                drifts@.map_values(|x: Drift| drift_view(x)) == drift_entries(ov.take(i as int), nm),
                forall|a: int| 0 <= a < drifts@.len() ==> chains_explain(self@.deps, self@.roots, #[trigger] drifts@[a]),
            decreases old.len() - i,
        {
            proof {
                assert(ov.take(i as int + 1).drop_last() =~= ov.take(i as int));
                assert(ov.take(i as int + 1).last() == pair_view(old@[i as int]));
            }
            let (name, old_fp) = (&old[i].0, &old[i].1);
            match lookup(&new_finger, name) {
                Some(j) => {
                    if new_finger[j].1 != *old_fp {
                        let chains = self.try_find_type_chain(name);
                        let d = Drift {
                            name: name.clone(),
                            old: old_fp.clone(),
                            new: new_finger[j].1.clone(),
                            chains,
                        };
                        proof {
                            assert(d.name@ == name@);
                            assert(d.chains == chains);
                            assert forall|c: Seq<Seq<char>>|
                                simple_chain(self@.deps, c, d.name@) && #[trigger] self@.roots.contains(c[0]) implies exists|j: int|
                                    0 <= j < d.chains@.len() && d.chains@[j]@ == join_arrow(seq![store_marker()] + c) by {
                                assert(simple_chain(self@.deps, c, name@));
                            }
                            assert(chains_explain(self@.deps, self@.roots, d));
                        }
                        let ghost before = drifts@;
                        let ghost dv = d;
                        drifts.push(d);
                        proof {
                            assert(drifts@.map_values(|x: Drift| drift_view(x)) =~= before.map_values(|x: Drift| drift_view(x)).push(drift_view(dv)));
                            assert forall|a: int| 0 <= a < drifts@.len() implies chains_explain(self@.deps, self@.roots, #[trigger] drifts@[a]) by {
                                if a < before.len() {
                                    assert(drifts@[a] == before[a]);
                                }
                            }
                        }
                    }
                },
                None => {},
            }
            i = i + 1;
        }
        proof {
            assert(ov.take(i as int) =~= ov);
        }
        if drifts.len() == 0 {
            Report::Passed(new_finger)
        } else {
            Report::Drifted(drifts)
        }
    }
}

} // verus!
