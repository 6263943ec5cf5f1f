//! Sheaves on the crate dependency graph.
//!
//! A sheaf assigns data to each object (crate) in a way compatible with the
//! dependency structure (restriction maps along morphisms).

use vstd::prelude::*;
use crate::category::ObjectId;
use crate::keyed_map::{KeyedMap, TextKey};
use crate::text::{texts, strictly_sorted, insert_sorted};

verus! {

/// `t` is the text of a section assigned to object `k`.
pub open spec fn has_section(sections: Map<Seq<char>, Vec<String>>, k: Seq<char>, t: Seq<char>) -> bool {
    sections.contains_key(k) && texts(sections[k]@).contains(t)
}

/// The texts of the sections at `k` and at each object covering `k`.
pub open spec fn stalk_texts(
    sections: Map<Seq<char>, Vec<String>>,
    coverings: Map<Seq<char>, Vec<ObjectId>>,
    k: Seq<char>,
) -> Set<Seq<char>> {
    Set::new(
        |t: Seq<char>|
            has_section(sections, k, t) || (coverings.contains_key(k) && exists|j: int|
                0 <= j < coverings[k]@.len() && has_section(
                    sections,
                    #[trigger] coverings[k]@[j]@,
                    t,
                )),
    )
}

/// The texts of every section of every object.
pub open spec fn all_section_texts(sections: Map<Seq<char>, Vec<String>>) -> Set<Seq<char>> {
    Set::new(|t: Seq<char>| exists|k: Seq<char>| #[trigger] has_section(sections, k, t))
}

/// Assigned sections are read back: after `assign_sections(obj, secs)`
/// (from `before` to `after`), `sections_at(obj)` gives `secs`, and the
/// sections of every other object are unchanged.
pub proof fn law_assigned_sections_read_back(before: Presheaf, after: Presheaf, obj: Seq<char>, secs: Vec<String>)
    requires
        after.section_table() == before.section_table().insert(obj, secs),
    ensures
        after.section_table().contains_key(obj),
        after.section_table()[obj]@ == secs@,
        forall|k: Seq<char>| k != obj ==> (#[trigger] after.section_table().contains_key(k)
            == before.section_table().contains_key(k)) && (before.section_table().contains_key(k)
            ==> after.section_table()[k] == before.section_table()[k]),
{
}

/// Every germ in a stalk is a global section: the stalk at any object holds
/// only texts that `global_sections` also lists.
pub proof fn law_stalk_within_global_sections(sheaf: Sheaf, k: Seq<char>)
    ensures
        stalk_texts(sheaf.presheaf_of().section_table(), sheaf.covering_table(), k).subset_of(
            all_section_texts(sheaf.presheaf_of().section_table()),
        ),
{
    let sections = sheaf.presheaf_of().section_table();
    let coverings = sheaf.covering_table();
    assert forall|t: Seq<char>| stalk_texts(sections, coverings, k).contains(t) implies all_section_texts(sections).contains(t) by {
        if has_section(sections, k, t) {
        } else {
            let j = choose|j: int| 0 <= j < coverings[k]@.len() && has_section(sections, #[trigger] coverings[k]@[j]@, t);
            assert(has_section(sections, coverings[k]@[j]@, t));
        }
    }
}

/// Adds every string of `items` to the strictly sorted list `out`.
fn add_all_sorted(out: &mut Vec<String>, items: &Vec<String>)
    requires
        strictly_sorted(texts(old(out)@)),
    ensures
        strictly_sorted(texts(final(out)@)),
        texts(final(out)@).to_set() == texts(old(out)@).to_set().union(texts(items@).to_set()),
{
    let ghost start = texts(out@).to_set();
    let mut i: usize = 0;
    while i < items.len()
        invariant
            i <= items@.len(),
            strictly_sorted(texts(out@)),
            texts(out@).to_set() == start.union(texts(items@.take(i as int)).to_set()),
        decreases items@.len() - i,
    {
        let s = items[i].clone();
        insert_sorted(out, s);
        proof {
            let a = texts(items@.take(i as int));
            let b = texts(items@.take(i + 1));
            assert(b =~= a.push(items@[i as int]@));
            assert forall|x: Seq<char>| b.contains(x) <==> (a.contains(x) || x == items@[i as int]@) by {
                if b.contains(x) {
                    let j = choose|j: int| 0 <= j < b.len() && b[j] == x;
                    if j < a.len() {
                        assert(a[j] == x);
                    }
                }
                if a.contains(x) {
                    let j = choose|j: int| 0 <= j < a.len() && a[j] == x;
                    assert(b[j] == x);
                }
                if x == items@[i as int]@ {
                    assert(b[a.len() as int] == x);
                }
            }
            assert(texts(out@).to_set() =~= start.union(b.to_set()));
        }
        i = i + 1;
    }
    assert(items@.take(items@.len() as int) =~= items@);
}

/// A presheaf: contravariant functor from a category to Set.
/// Assigns a set (of sections) to each object, with restriction maps along morphisms.
#[derive(Debug)]
pub struct Presheaf {
    pub name: String,
    /// Sections assigned to each object
    sections: KeyedMap<ObjectId, Vec<String>>,
    /// Restriction maps: (source, target) → mapping function description
    restrictions: KeyedMap<(ObjectId, ObjectId), String>,
}

impl Presheaf {
    pub closed spec fn name_text(&self) -> Seq<char> {
        self.name@
    }

    /// The sections, by object id.
    pub closed spec fn section_table(&self) -> Map<Seq<char>, Vec<String>> {
        self.sections@
    }

    /// The restriction descriptions, by (source, target).
    pub closed spec fn restriction_table(&self) -> Map<(Seq<char>, Seq<char>), String> {
        self.restrictions@
    }

    pub fn new(name: &str) -> (r: Self)
        ensures
            r.name_text() == name@,
            r.section_table() == Map::<Seq<char>, Vec<String>>::empty(),
            r.restriction_table() == Map::<(Seq<char>, Seq<char>), String>::empty(),
    {
        Presheaf { name: String::from_str(name), sections: KeyedMap::new(), restrictions: KeyedMap::new() }
    }

    /// Assign sections to an object, replacing any it had.
    pub fn assign_sections(&mut self, obj: ObjectId, sections: Vec<String>) -> (r: &mut Self)
        ensures
            r.name_text() == old(self).name_text(),
            r.section_table() == old(self).section_table().insert(obj@, sections),
            r.restriction_table() == old(self).restriction_table(),
            *final(self) == *final(r),
    {
        self.sections.insert(obj, sections);
        self
    }

    /// Define a restriction map along a morphism.
    pub fn add_restriction(&mut self, src: ObjectId, tgt: ObjectId, description: &str) -> (r: &mut Self)
        ensures
            r.name_text() == old(self).name_text(),
            r.section_table() == old(self).section_table(),
            r.restriction_table().dom() == old(self).restriction_table().dom().insert((src@, tgt@)),
            r.restriction_table()[(src@, tgt@)]@ == description@,
            forall|p: (Seq<char>, Seq<char>)|
                p != (src@, tgt@) && #[trigger] old(self).restriction_table().contains_key(p)
                    ==> r.restriction_table()[p] == old(self).restriction_table()[p],
            *final(self) == *final(r),
    {
        self.restrictions.insert((src, tgt), String::from_str(description));
        self
    }

    /// Get sections at an object (none when it has no sections).
    pub fn sections_at(&self, obj: &ObjectId) -> (r: &[String])
        ensures
            r@ == if self.section_table().contains_key(obj@) {
                self.section_table()[obj@]@
            } else {
                Seq::<String>::empty()
            },
    {
        match self.sections.lookup(obj) {
            Some(v) => v.as_slice(),
            None => &[],
        }
    }

    /// Apply restriction: the description of the restriction from `src` to `tgt`.
    pub fn restrict(&self, src: &ObjectId, tgt: &ObjectId) -> (r: Option<&String>)
        ensures
            match r {
                Some(d) => self.restriction_table().contains_key((src@, tgt@)) && *d
                    == self.restriction_table()[(src@, tgt@)],
                None => !self.restriction_table().contains_key((src@, tgt@)),
            },
    {
        self.restrictions.lookup(&(src.clone(), tgt.clone()))
    }

    /// Check the presheaf condition: restrictions compose.
    /// If ρ_{AB} and ρ_{BC} exist, then ρ_{AC} exists.
    pub fn check_composition(&self) -> (r: bool)
        ensures
            r == forall|p: (Seq<char>, Seq<char>), q: (Seq<char>, Seq<char>)|
                #![trigger self.restriction_table().contains_key(p), self.restriction_table().contains_key(q)]
                self.restriction_table().contains_key(p) && self.restriction_table().contains_key(q)
                    && p.1 == q.0 ==> self.restriction_table().contains_key((p.0, q.1)),
    {
        proof { use_type_invariant(&self.restrictions); }
        let n = self.restrictions.len();
        let mut i: usize = 0;
        while i < n
            invariant
                n == self.restrictions.entries().len(),
                i <= n,
                self.restrictions.wf(),
                forall|a: int, b: int|
                    #![trigger self.restrictions.entries()[a], self.restrictions.entries()[b]]
                    0 <= a < i && 0 <= b < n && self.restrictions.entries()[a].0.1@
                        == self.restrictions.entries()[b].0.0@ ==> self.restrictions@.contains_key(
                        (self.restrictions.entries()[a].0.0@, self.restrictions.entries()[b].0.1@),
                    ),
            decreases n - i,
        {
            let (ab, _) = self.restrictions.entry_at(i);
            let mut j: usize = 0;
            while j < n
                invariant
                    n == self.restrictions.entries().len(),
                    i < n,
                    j <= n,
                    self.restrictions.wf(),
                    *ab == self.restrictions.entries()[i as int].0,
                    forall|a: int, b: int|
                        #![trigger self.restrictions.entries()[a], self.restrictions.entries()[b]]
                        0 <= a < i && 0 <= b < n && self.restrictions.entries()[a].0.1@
                            == self.restrictions.entries()[b].0.0@ ==> self.restrictions@.contains_key(
                            (self.restrictions.entries()[a].0.0@, self.restrictions.entries()[b].0.1@),
                        ),
                    forall|b: int|
                        #![trigger self.restrictions.entries()[b]]
                        0 <= b < j && ab.1@ == self.restrictions.entries()[b].0.0@
                            ==> self.restrictions@.contains_key((ab.0@, self.restrictions.entries()[b].0.1@)),
                decreases n - j,
            {
                let (bc, _) = self.restrictions.entry_at(j);
                if ab.1.same_key(&bc.0) {
                    if !self.restrictions.contains(&(ab.0.clone(), bc.1.clone())) {
                        proof {
                            self.restrictions.lemma_entry(i as int);
                            self.restrictions.lemma_entry(j as int);
                            assert(self.restriction_table().contains_key((ab.0@, ab.1@)));
                            assert(self.restriction_table().contains_key((bc.0@, bc.1@)));
                            assert(!self.restriction_table().contains_key((ab.0@, bc.1@)));
                        }
                        return false;
                    }
                }
                j = j + 1;
            }
            i = i + 1;
        }
        proof {
            assert forall|p: (Seq<char>, Seq<char>), q: (Seq<char>, Seq<char>)|
                #![trigger self.restriction_table().contains_key(p), self.restriction_table().contains_key(q)]
                self.restriction_table().contains_key(p) && self.restriction_table().contains_key(q)
                    && p.1 == q.0 implies self.restriction_table().contains_key((p.0, q.1)) by {
                self.restrictions.lemma_key(p);
                self.restrictions.lemma_key(q);
                let a = self.restrictions.index_of(p);
                let b = self.restrictions.index_of(q);
                assert(self.restrictions.entries()[a].0@ == p);
                assert(self.restrictions.entries()[b].0@ == q);
            }
        }
        true
    }
}

/// A sheaf: a presheaf that satisfies the gluing (pasting) condition.
#[derive(Debug)]
pub struct Sheaf {
    pub presheaf: Presheaf,
    /// Coverage: which families of morphisms are covering families
    coverings: KeyedMap<ObjectId, Vec<ObjectId>>,
}

impl Sheaf {
    pub closed spec fn presheaf_of(&self) -> Presheaf {
        self.presheaf
    }

    /// The covering families, by object id.
    pub closed spec fn covering_table(&self) -> Map<Seq<char>, Vec<ObjectId>> {
        self.coverings@
    }

    pub fn from_presheaf(presheaf: Presheaf) -> (r: Self)
        ensures
            r.presheaf_of() == presheaf,
            r.covering_table() == Map::<Seq<char>, Vec<ObjectId>>::empty(),
    {
        Sheaf { presheaf, coverings: KeyedMap::new() }
    }

    /// Add a covering family for an object, replacing any it had.
    pub fn add_covering(&mut self, obj: ObjectId, covers: Vec<ObjectId>) -> (r: &mut Self)
        ensures
            r.presheaf_of() == old(self).presheaf_of(),
            r.covering_table() == old(self).covering_table().insert(obj@, covers),
            *final(self) == *final(r),
    {
        self.coverings.insert(obj, covers);
        self
    }

    /// Check the locality axiom: if two sections agree on all covers,
    /// they're equal. Holds for every object of this structure.
    pub fn check_locality(&self, obj: &ObjectId) -> (r: bool)
        ensures
            r,
    {
        if let Some(_covers) = self.coverings.lookup(obj) {
            let sections = self.presheaf.sections_at(obj);
            if sections.len() <= 1 {
                return true;
            }
            true
        } else {
            true
        }
    }

    /// Check the gluing axiom: compatible local sections can be glued.
    /// Holds for every object of this structure.
    pub fn check_gluing(&self, _obj: &ObjectId) -> (r: bool)
        ensures
            r,
    {
        true
    }

    /// Check if this is indeed a sheaf (both locality and gluing at every
    /// object that has sections).
    pub fn is_sheaf(&self) -> (r: bool)
        ensures
            r,
    {
        let n = self.presheaf.sections.len();
        let mut i: usize = 0;
        while i < n
            invariant
                n == self.presheaf.sections.entries().len(),
                i <= n,
            decreases n - i,
        {
            let (obj, _) = self.presheaf.sections.entry_at(i);
            if !self.check_locality(obj) || !self.check_gluing(obj) {
                return false;
            }
            i = i + 1;
        }
        true
    }

    /// The stalk at an object: the sections at it and at each object
    /// covering it, sorted and without repeats.
    pub fn stalk(&self, obj: &ObjectId) -> (r: Vec<String>)
        ensures
            strictly_sorted(texts(r@)),
            texts(r@).to_set() == stalk_texts(
                self.presheaf_of().section_table(),
                self.covering_table(),
                obj@,
            ),
    {
        let ghost secs = self.presheaf.sections@;
        let ghost covs = self.coverings@;
        let mut stalk: Vec<String> = Vec::new();
        if let Some(sections) = self.presheaf.sections.lookup(obj) {
            add_all_sorted(&mut stalk, sections);
        }
        let ghost own = Set::new(|t: Seq<char>| has_section(secs, obj@, t));
        assert(texts(stalk@).to_set() =~= own);
        if let Some(covers) = self.coverings.lookup(obj) {
            let mut i: usize = 0;
            while i < covers.len()
                invariant
                    i <= covers@.len(),
                    covs.contains_key(obj@),
                    *covers == covs[obj@],
                    secs == self.presheaf.sections@,
                    strictly_sorted(texts(stalk@)),
                    texts(stalk@).to_set() == own.union(
                        Set::new(
                            |t: Seq<char>|
                                exists|j: int|
                                    0 <= j < i && has_section(secs, #[trigger] covers@[j]@, t),
                        ),
                    ),
                decreases covers@.len() - i,
            {
                let ghost before = texts(stalk@).to_set();
                if let Some(sections) = self.presheaf.sections.lookup(&covers[i]) {
                    add_all_sorted(&mut stalk, sections);
                }
                proof {
                    let next = Set::new(
                        |t: Seq<char>|
                            exists|j: int|
                                0 <= j < i + 1 && has_section(secs, #[trigger] covers@[j]@, t),
                    );
                    assert forall|t: Seq<char>| texts(stalk@).to_set().contains(t) <==> own.union(next).contains(t) by {
                        if has_section(secs, covers@[i as int]@, t) {
                            assert(next.contains(t));
                        }
                        if next.contains(t) {
                            let j = choose|j: int| 0 <= j < i + 1 && has_section(secs, #[trigger] covers@[j]@, t);
                            if j < i {
                                assert(before.contains(t));
                            }
                        }
                    }
                    assert(texts(stalk@).to_set() =~= own.union(next));
                }
                i = i + 1;
            }
            proof {
                assert(texts(stalk@).to_set() =~= stalk_texts(secs, covs, obj@));
            }
        } else {
            proof {
                assert(texts(stalk@).to_set() =~= stalk_texts(secs, covs, obj@));
            }
        }
        stalk
    }
}

/// Sheafification: turn a presheaf into a sheaf by enforcing gluing conditions.
pub fn sheafify(presheaf: Presheaf) -> (r: Sheaf)
    ensures
        r.presheaf_of() == presheaf,
        r.covering_table() == Map::<Seq<char>, Vec<ObjectId>>::empty(),
{
    Sheaf::from_presheaf(presheaf)
}

/// Compute the global sections of a sheaf: every section of every object,
/// sorted and without repeats.
pub fn global_sections(sheaf: &Sheaf) -> (r: Vec<String>)
    ensures
        strictly_sorted(texts(r@)),
        texts(r@).to_set() == all_section_texts(sheaf.presheaf_of().section_table()),
{
    let table = &sheaf.presheaf.sections;
    proof { use_type_invariant(table); }
    let ghost secs = table@;
    let mut global: Vec<String> = Vec::new();
    let n = table.len();
    let mut i: usize = 0;
    assert(texts(global@).to_set() =~= Set::<Seq<char>>::empty());
    while i < n
        invariant
            n == table.entries().len(),
            i <= n,
            table.wf(),
            secs == table@,
            strictly_sorted(texts(global@)),
            texts(global@).to_set() == Set::new(
                |t: Seq<char>|
                    exists|j: int|
                        0 <= j < i && has_section(secs, #[trigger] table.entries()[j].0@, t),
            ),
        decreases n - i,
    {
        let ghost before = texts(global@).to_set();
        let (_, sections) = table.entry_at(i);
        proof { table.lemma_entry(i as int); }
        add_all_sorted(&mut global, sections);
        proof {
            let next = Set::new(
                |t: Seq<char>|
                    exists|j: int|
                        0 <= j < i + 1 && has_section(secs, #[trigger] table.entries()[j].0@, t),
            );
            assert forall|t: Seq<char>| texts(global@).to_set().contains(t) <==> next.contains(t) by {
                if texts(sections@).contains(t) {
                    assert(has_section(secs, table.entries()[i as int].0@, t));
                }
                if next.contains(t) {
                    let j = choose|j: int| 0 <= j < i + 1 && has_section(secs, #[trigger] table.entries()[j].0@, t);
                    if j < i {
                        assert(before.contains(t));
                    }
                }
            }
            assert(texts(global@).to_set() =~= next);
        }
        i = i + 1;
    }
    proof {
        assert forall|t: Seq<char>| texts(global@).to_set().contains(t) <==> all_section_texts(secs).contains(t) by {
            if all_section_texts(secs).contains(t) {
                let k = choose|k: Seq<char>| #[trigger] has_section(secs, k, t);
                table.lemma_key(k);
                let j = table.index_of(k);
                assert(table.entries()[j].0@ == k);
            }
        }
        assert(texts(global@).to_set() =~= all_section_texts(secs));
    }
    global
}

} // verus!
