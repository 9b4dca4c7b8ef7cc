//! The global registry of project roots: a deduplicated list of paths.

use vstd::prelude::*;

use crate::release::spec_dedup;
use crate::task::string_list_contains;

verus! {

/// Keeps the elements of `s` whose mask bit is set, in order.
pub open spec fn spec_mask_keep(s: Seq<Seq<char>>, mask: Seq<bool>) -> Seq<Seq<char>>
    decreases s.len(),
{
    if s.len() == 0 || mask.len() < s.len() {
        Seq::empty()
    } else {
        spec_mask_keep(s.drop_last(), mask.take(s.len() - 1)) + (if mask[s.len() - 1] {
            seq![s.last()]
        } else {
            Seq::empty()
        })
    }
}

/// The registered project roots, each path kept once.
#[derive(Debug)]
pub struct ProjectRegistryStorage {
    pub projects: Vec<String>,
}

impl View for ProjectRegistryStorage {
    type V = Seq<Seq<char>>;

    open spec fn view(&self) -> Seq<Seq<char>> {
        self.projects.deep_view()
    }
}

impl ProjectRegistryStorage {
    /// A registry over loaded paths, first occurrences kept.
    pub fn new(projects: Vec<String>) -> (r: ProjectRegistryStorage)
        ensures
            r@ == spec_dedup(projects.deep_view()),
    {
        let mut s = ProjectRegistryStorage { projects };
        s.normalize();
        s
    }

    /// Drops repeated paths, keeping first occurrences.
    pub fn normalize(&mut self)
        ensures
            final(self)@ == spec_dedup(old(self)@),
    {
        let mut deduped: Vec<String> = Vec::new();
        let n = self.projects.len();
        let mut i: usize = 0;
        proof {
            assert(deduped.deep_view() =~~= Seq::<Seq<char>>::empty());
            assert(spec_dedup(old(self)@.take(0int)) =~= Seq::<Seq<char>>::empty());
        }
        while i < n
            invariant
                i <= n,
                n == self.projects@.len(),
                n == self@.len(),
                self.projects == old(self).projects,
                deduped.deep_view() == spec_dedup(self@.take(i as int)),
            decreases n - i,
        {
            proof {
                assert(self.projects@[i as int]@ == self@[i as int]);
                assert(self@.take(i as int + 1).drop_last() =~= self@.take(i as int));
                assert(self@.take(i as int + 1).last() == self@[i as int]);
            }
            if !string_list_contains(&deduped, &self.projects[i]) {
                let ghost prev = deduped.deep_view();
                deduped.push(self.projects[i].clone());
                proof {
                    assert(deduped.deep_view() =~~= prev.push(self@[i as int]));
                }
            }
            i = i + 1;
        }
        proof {
            assert(self@.take(n as int) =~= self@);
        }
        self.projects = deduped;
    }

    /// Registers a path; returns whether it was new.
    pub fn add_project(&mut self, normalized: String) -> (r: bool)
        ensures
            old(self)@.contains(normalized@) ==> !r && *final(self) == *old(self),
            !old(self)@.contains(normalized@) ==> r && final(self)@ == old(self)@.push(
                normalized@,
            ),
    {
        if string_list_contains(&self.projects, &normalized) {
            return false;
        }
        let ghost prev = self@;
        let ghost nv = normalized@;
        self.projects.push(normalized);
        proof {
            assert(self@ =~~= prev.push(nv));
        }
        true
    }

    /// The registered paths, copied.
    pub fn projects(&self) -> (r: Vec<String>)
        ensures
            r.deep_view() == self@,
    {
        crate::history::clone_strings(&self.projects)
    }

    /// Keeps only the paths the caller found present on disk; returns how
    /// many were dropped.
    pub fn prune_missing(&mut self, present: &Vec<bool>) -> (r: usize)
        requires
            present@.len() == old(self)@.len(),
        ensures
            final(self)@ == spec_mask_keep(old(self)@, present@),
            r == old(self)@.len() - final(self)@.len(),
            r == 0 ==> *final(self) == *old(self),
    {
        let mut kept: Vec<String> = Vec::new();
        let n = self.projects.len();
        let mut i: usize = 0;
        proof {
            assert(kept.deep_view() =~~= Seq::<Seq<char>>::empty());
            assert(spec_mask_keep(old(self)@.take(0int), present@.take(0int)) =~= Seq::<
                Seq<char>,
            >::empty());
        }
        while i < n
            invariant
                i <= n,
                n == self.projects@.len(),
                n == self@.len(),
                n == present@.len(),
                self.projects == old(self).projects,
                kept.deep_view() == spec_mask_keep(self@.take(i as int), present@.take(i as int)),
                kept@.len() <= i,
            decreases n - i,
        {
            proof {
                assert(self.projects@[i as int]@ == self@[i as int]);
                assert(self@.take(i as int + 1).drop_last() =~= self@.take(i as int));
                assert(self@.take(i as int + 1).last() == self@[i as int]);
                assert(present@.take(i as int + 1).take(i as int) =~= present@.take(i as int));
                assert(present@.take(i as int + 1)[i as int] == present@[i as int]);
            }
            if present[i] {
                let ghost prev = kept.deep_view();
                kept.push(self.projects[i].clone());
                proof {
                    assert(kept.deep_view() =~~= prev.push(self@[i as int]));
                    assert(kept.deep_view() =~~= spec_mask_keep(
                        self@.take(i as int + 1),
                        present@.take(i as int + 1),
                    ));
                }
            } else {
                proof {
                    assert(kept.deep_view() =~~= spec_mask_keep(
                        self@.take(i as int + 1),
                        present@.take(i as int + 1),
                    ));
                }
            }
            i = i + 1;
        }
        proof {
            assert(self@.take(n as int) =~= self@);
            assert(present@.take(n as int) =~= present@);
        }
        let removed = n - kept.len();
        let ghost kv = kept.deep_view();
        if removed == 0 {
            proof {
                lemma_mask_keep_full(self@, present@);
                assert(kv =~~= self@);
            }
            return 0;
        }
        self.projects = kept;
        removed
    }
}

proof fn lemma_mask_keep_full(s: Seq<Seq<char>>, mask: Seq<bool>)
    requires
        mask.len() == s.len(),
    ensures
        spec_mask_keep(s, mask).len() <= s.len(),
        spec_mask_keep(s, mask).len() == s.len() ==> spec_mask_keep(s, mask) == s,
    decreases s.len(),
{
    if s.len() > 0 {
        lemma_mask_keep_full(s.drop_last(), mask.take(s.len() - 1));
        if spec_mask_keep(s, mask).len() == s.len() {
            assert(mask[s.len() - 1]);
            assert(spec_mask_keep(s.drop_last(), mask.take(s.len() - 1)) == s.drop_last());
            assert(spec_mask_keep(s, mask) =~= s);
        }
    }
}

} // verus!
