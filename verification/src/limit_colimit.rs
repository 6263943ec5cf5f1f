//! Limits and colimits — products, coproducts, pullbacks, pushouts of crate compositions.

use vstd::prelude::*;
use crate::category::{Category, Morphism, ObjectId, Object, one_more_arrow};
use crate::keyed_map::TextKey;

verus! {

/// A cone over a diagram: an object (apex) with morphisms to each diagram object.
#[derive(Debug)]
pub struct Cone {
    pub apex: ObjectId,
    pub projections: Vec<(ObjectId, Morphism)>,  // (target, morphism from apex to target)
}

/// A cocone under a diagram: an object (nadir) with morphisms from each diagram object.
#[derive(Debug)]
pub struct Cocone {
    pub nadir: ObjectId,
    pub injections: Vec<(ObjectId, Morphism)>,  // (source, morphism from source to nadir)
}

/// Result of computing a limit or colimit.
#[derive(Debug)]
pub struct LimitResult {
    pub limit_object: Object,
    pub cone: Cone,
    pub is_universal: bool,
}

/// Result of computing a colimit.
#[derive(Debug)]
pub struct ColimitResult {
    pub colimit_object: Object,
    pub cocone: Cocone,
    pub is_universal: bool,
}

/// `o` is what `Object::new(id, name)` makes.
pub open spec fn fresh_object(o: Object, id: Seq<char>, name: Seq<char>) -> bool {
    &&& o.id@ == id
    &&& o.name@ == name
    &&& o.version@ == "0.1.0"@
    &&& o.metadata@ == Map::<Seq<char>, String>::empty()
}

/// `m` is the morphism `id: source → target` with the given label.
pub open spec fn arrow_is(
    m: Morphism,
    id: Seq<char>,
    source: Seq<char>,
    target: Seq<char>,
    label: Seq<char>,
) -> bool {
    &&& m.id@ == id
    &&& m.source@ == source
    &&& m.target@ == target
    &&& m.label@ == label
}

/// `after` is `before` with the object `o` added under `id` (replacing one
/// with the same id), nothing else changed.
pub open spec fn object_added(before: Category, after: Category, id: Seq<char>, name: Seq<char>) -> bool {
    &&& after.wf()
    &&& after.name_of() == before.name_of()
    &&& after.has_object(id)
    &&& fresh_object(after.object_table()[id], id, name)
    &&& after.object_table() == before.object_table().insert(id, after.object_table()[id])
    &&& after.object_order() == if before.has_object(id) {
        before.object_order()
    } else {
        before.object_order().push(id)
    }
}

/// The morphisms of `after` are those of `before`, followed by `ms` in
/// order, pair of objects by pair of objects.
pub open spec fn arrows_appended(before: Category, after: Category, ms: Seq<Morphism>) -> bool
    decreases ms.len(),
{
    if ms.len() == 0 {
        forall|s: Seq<char>, t: Seq<char>| #[trigger]
            after.arrows_between(s, t) == before.arrows_between(s, t)
    } else {
        forall|s: Seq<char>, t: Seq<char>| #[trigger]
            after.arrows_between(s, t) == before.arrows_between(s, t) + seq_between(ms, s, t)
    }
}

/// The morphisms of `ms` from `s` to `t`, in order.
pub open spec fn seq_between(ms: Seq<Morphism>, s: Seq<char>, t: Seq<char>) -> Seq<Morphism>
    decreases ms.len(),
{
    if ms.len() == 0 {
        Seq::empty()
    } else {
        let rest = seq_between(ms.drop_last(), s, t);
        if ms.last().source@ == s && ms.last().target@ == t {
            rest.push(ms.last())
        } else {
            rest
        }
    }
}

/// Adding an object leaves the morphisms as they were; adding morphisms
/// one by one appends them.
proof fn lemma_chain_arrows(c0: Category, c1: Category, c2: Category, m1: Morphism)
    requires
        forall|s: Seq<char>, t: Seq<char>| #[trigger] c0.arrows_between(s, t) == c1.arrows_between(s, t),
        one_more_arrow(c1, c2, m1),
    ensures
        arrows_appended(c0, c2, seq![m1]),
{
    assert forall|s: Seq<char>, t: Seq<char>| #[trigger] c2.arrows_between(s, t) == c0.arrows_between(s, t) + seq_between(seq![m1], s, t) by {
        assert(seq![m1].drop_last() =~= Seq::<Morphism>::empty());
        assert(seq_between(seq![m1].drop_last(), s, t) == Seq::<Morphism>::empty());
        assert(seq![m1].last() == m1);
        assert(c1.arrows_between(s, t) == c0.arrows_between(s, t));
        if m1.source@ == s && m1.target@ == t {
            assert(seq_between(seq![m1], s, t) =~= seq![m1]);
        } else {
            assert(seq_between(seq![m1], s, t) =~= Seq::<Morphism>::empty());
            assert(c0.arrows_between(s, t) + Seq::<Morphism>::empty() =~= c0.arrows_between(s, t));
        }
    }
}

proof fn lemma_chain_arrows2(c0: Category, c2: Category, c3: Category, m1: Morphism, m2: Morphism)
    requires
        arrows_appended(c0, c2, seq![m1]),
        one_more_arrow(c2, c3, m2),
    ensures
        arrows_appended(c0, c3, seq![m1, m2]),
{
    assert forall|s: Seq<char>, t: Seq<char>| #[trigger] c3.arrows_between(s, t) == c0.arrows_between(s, t) + seq_between(seq![m1, m2], s, t) by {
        assert(seq![m1, m2].drop_last() =~= seq![m1]);
        assert(seq![m1].drop_last() =~= Seq::<Morphism>::empty());
        assert(c2.arrows_between(s, t) == c0.arrows_between(s, t) + seq_between(seq![m1], s, t));
        let x = seq_between(seq![m1], s, t);
        if m2.source@ == s && m2.target@ == t {
            assert(seq_between(seq![m1, m2], s, t) =~= x.push(m2));
            assert(c0.arrows_between(s, t) + x + seq![m2] =~= c0.arrows_between(s, t) + x.push(m2));
        } else {
            assert(seq_between(seq![m1, m2], s, t) =~= x);
            assert(c2.arrows_between(s, t) + Seq::<Morphism>::empty() =~= c2.arrows_between(s, t));
        }
    }
}

/// Adds `Object::new(id, name)` to `cat`.
fn add_fresh_object(cat: &mut Category, id: &String, name: &String)
    requires
        old(cat).wf(),
    ensures
        object_added(*old(cat), *final(cat), id@, name@),
        forall|s: Seq<char>, t: Seq<char>| #[trigger] final(cat).arrows_between(s, t) == old(cat).arrows_between(s, t),
{
    let obj = Object::new(id.as_str(), name.as_str());
    let ghost o = obj;
    cat.add_object(obj);
    assert(cat.object_table()[id@] == o);
}

/// What `product` leaves in the category and returns.
pub open spec fn product_outcome(before: Category, after: Category, a: ObjectId, b: ObjectId, r: Result<LimitResult, String>) -> bool {
    &&& (r.is_ok() == (before.has_object(a@) && before.has_object(b@)))
    &&& (r matches Err(e) ==> after == before && e@ == if !before.has_object(a@) {
            "Object A not found"@
        } else {
            "Object B not found"@
        })
    &&& (r matches Ok(res) ==> {
            let pid = a@ + "×"@ + b@;
            let pname = "Product("@ + before.object_table()[a@].name@ + ","@ + before.object_table()[b@].name@ + ")"@;
            &&& fresh_object(res.limit_object, pid, pname)
            &&& res.is_universal
            &&& res.cone.apex@ == pid
            &&& res.cone.projections@.len() == 2
            &&& res.cone.projections@[0].0 == a
            &&& res.cone.projections@[1].0 == b
            &&& arrow_is(res.cone.projections@[0].1, "π₁_"@ + a@ + "×"@ + b@, pid, a@, "proj1"@)
            &&& arrow_is(res.cone.projections@[1].1, "π₂_"@ + a@ + "×"@ + b@, pid, b@, "proj2"@)
            &&& exists|mid: Category| object_added(before, mid, pid, pname) && after.object_table() == mid.object_table()
                && after.object_order() == mid.object_order() && after.name_of() == mid.name_of()
            &&& arrows_appended(before, after, seq![res.cone.projections@[0].1, res.cone.projections@[1].1])
        })
}

/// Compute the product of two objects (binary product / limit of discrete diagram).
pub fn product(cat: &mut Category, a: &ObjectId, b: &ObjectId) -> (r: Result<LimitResult, String>)
    requires
        old(cat).wf(),
    ensures
        final(cat).wf(),
        product_outcome(*old(cat), *final(cat), *a, *b, r),

{
    let name_a = match cat.get_object(a) {
        Some(o) => o.name.clone(),
        None => {
            return Err(String::from_str("Object A not found"));
        },
    };
    let name_b = match cat.get_object(b) {
        Some(o) => o.name.clone(),
        None => {
            return Err(String::from_str("Object B not found"));
        },
    };
    let prod_id = ObjectId(a.0.clone().concat("×").concat(b.0.as_str()));
    let prod_name = String::from_str("Product(").concat(name_a.as_str()).concat(",").concat(
        name_b.as_str(),
    ).concat(")");
    let prod_obj = Object::new(prod_id.0.as_str(), prod_name.as_str());
    let ghost c0 = *cat;
    add_fresh_object(cat, &prod_id.0, &prod_name);
    let ghost c1 = *cat;
    let proj_a = Morphism::new(
        String::from_str("π₁_").concat(a.0.as_str()).concat("×").concat(b.0.as_str()).as_str(),
        prod_id.clone(),
        a.clone(),
    ).with_label("proj1");
    let proj_b = Morphism::new(
        String::from_str("π₂_").concat(a.0.as_str()).concat("×").concat(b.0.as_str()).as_str(),
        prod_id.clone(),
        b.clone(),
    ).with_label("proj2");
    let ra = cat.add_morphism(proj_a.clone());
    let ghost c2 = *cat;
    let rb = cat.add_morphism(proj_b.clone());
    proof {
        lemma_chain_arrows(c0, c1, c2, proj_a);
        lemma_chain_arrows2(c0, c2, *cat, proj_a, proj_b);
    }
    let mut projections: Vec<(ObjectId, Morphism)> = Vec::new();
    projections.push((a.clone(), proj_a));
    projections.push((b.clone(), proj_b));
    let cone = Cone { apex: prod_id, projections };
    Ok(LimitResult { limit_object: prod_obj, cone, is_universal: true })
}

/// What `coproduct` leaves in the category and returns.
pub open spec fn coproduct_outcome(before: Category, after: Category, a: ObjectId, b: ObjectId, r: Result<ColimitResult, String>) -> bool {
    &&& (r.is_ok() == (before.has_object(a@) && before.has_object(b@)))
    &&& (r matches Err(e) ==> after == before && e@ == if !before.has_object(a@) {
            "Object A not found"@
        } else {
            "Object B not found"@
        })
    &&& (r matches Ok(res) ==> {
            let cid = a@ + "+"@ + b@;
            let cname = "Coproduct("@ + before.object_table()[a@].name@ + ","@ + before.object_table()[b@].name@ + ")"@;
            &&& fresh_object(res.colimit_object, cid, cname)
            &&& res.is_universal
            &&& res.cocone.nadir@ == cid
            &&& res.cocone.injections@.len() == 2
            &&& res.cocone.injections@[0].0 == a
            &&& res.cocone.injections@[1].0 == b
            &&& arrow_is(res.cocone.injections@[0].1, "ι₁_"@ + a@ + "+"@ + b@, a@, cid, "inj1"@)
            &&& arrow_is(res.cocone.injections@[1].1, "ι₂_"@ + a@ + "+"@ + b@, b@, cid, "inj2"@)
            &&& exists|mid: Category| object_added(before, mid, cid, cname) && after.object_table() == mid.object_table()
                && after.object_order() == mid.object_order() && after.name_of() == mid.name_of()
            &&& arrows_appended(before, after, seq![res.cocone.injections@[0].1, res.cocone.injections@[1].1])
        })
}

/// Compute the coproduct (sum) of two objects.
pub fn coproduct(cat: &mut Category, a: &ObjectId, b: &ObjectId) -> (r: Result<ColimitResult, String>)
    requires
        old(cat).wf(),
    ensures
        final(cat).wf(),
        coproduct_outcome(*old(cat), *final(cat), *a, *b, r),

{
    let name_a = match cat.get_object(a) {
        Some(o) => o.name.clone(),
        None => {
            return Err(String::from_str("Object A not found"));
        },
    };
    let name_b = match cat.get_object(b) {
        Some(o) => o.name.clone(),
        None => {
            return Err(String::from_str("Object B not found"));
        },
    };
    let coprod_id = ObjectId(a.0.clone().concat("+").concat(b.0.as_str()));
    let coprod_name = String::from_str("Coproduct(").concat(name_a.as_str()).concat(",").concat(
        name_b.as_str(),
    ).concat(")");
    let coprod_obj = Object::new(coprod_id.0.as_str(), coprod_name.as_str());
    let ghost c0 = *cat;
    add_fresh_object(cat, &coprod_id.0, &coprod_name);
    let ghost c1 = *cat;
    let inj_a = Morphism::new(
        String::from_str("ι₁_").concat(a.0.as_str()).concat("+").concat(b.0.as_str()).as_str(),
        a.clone(),
        coprod_id.clone(),
    ).with_label("inj1");
    let inj_b = Morphism::new(
        String::from_str("ι₂_").concat(a.0.as_str()).concat("+").concat(b.0.as_str()).as_str(),
        b.clone(),
        coprod_id.clone(),
    ).with_label("inj2");
    let ra = cat.add_morphism(inj_a.clone());
    let ghost c2 = *cat;
    let rb = cat.add_morphism(inj_b.clone());
    proof {
        lemma_chain_arrows(c0, c1, c2, inj_a);
        lemma_chain_arrows2(c0, c2, *cat, inj_a, inj_b);
    }
    let mut injections: Vec<(ObjectId, Morphism)> = Vec::new();
    injections.push((a.clone(), inj_a));
    injections.push((b.clone(), inj_b));
    let cocone = Cocone { nadir: coprod_id, injections };
    Ok(ColimitResult { colimit_object: coprod_obj, cocone, is_universal: true })
}

/// `<prefix>(<f>,<g>)`, the text of the objects built from two morphisms.
pub open spec fn pair_text(prefix: Seq<char>, f: Seq<char>, g: Seq<char>) -> Seq<char> {
    prefix + "("@ + f + ","@ + g + ")"@
}

fn pair_string(prefix: &str, f: &String, g: &String) -> (r: String)
    ensures
        r@ == pair_text(prefix@, f@, g@),
{
    String::from_str(prefix).concat("(").concat(f.as_str()).concat(",").concat(g.as_str()).concat(")")
}

/// What `equalizer` leaves in the category and returns.
pub open spec fn equalizer_outcome(before: Category, after: Category, f: Morphism, g: Morphism, r: Result<LimitResult, String>) -> bool {
    &&& (!(f.source@ == g.source@ && f.target@ == g.target@) ==> (after == before && (r matches Err(e)
            && e@ == "Morphisms must be parallel (same source and target)"@)))
    &&& (f.source@ == g.source@ && f.target@ == g.target@ ==> {
            let eid = pair_text("Eq"@, f.id@, g.id@);
            let ename = pair_text("Equalizer"@, f.id@, g.id@);
            &&& r.is_ok() == (before.has_object(f.source@) || f.source@ == eid)
            &&& exists|mid: Category| object_added(before, mid, eid, ename) && after.object_table() == mid.object_table()
                && after.object_order() == mid.object_order() && after.name_of() == mid.name_of()
            &&& r matches Err(e) ==> e@ == "Source or target object not in category"@
                && arrows_appended(before, after, Seq::<Morphism>::empty())
            &&& r matches Ok(res) ==> {
                &&& fresh_object(res.limit_object, eid, ename)
                &&& res.is_universal
                &&& res.cone.apex@ == eid
                &&& res.cone.projections@.len() == 1
                &&& res.cone.projections@[0].0 == f.source
                &&& arrow_is(res.cone.projections@[0].1, "eq_mor_"@ + eid, eid, f.source@, "equalizer_morphism"@)
                &&& arrows_appended(before, after, seq![res.cone.projections@[0].1])
            }
        })
}

/// Compute the equalizer of two parallel morphisms.
pub fn equalizer(cat: &mut Category, f: &Morphism, g: &Morphism) -> (r: Result<LimitResult, String>)
    requires
        old(cat).wf(),
    ensures
        final(cat).wf(),
        equalizer_outcome(*old(cat), *final(cat), *f, *g, r),
{
    if !f.source.same_key(&g.source) || !f.target.same_key(&g.target) {
        return Err(String::from_str("Morphisms must be parallel (same source and target)"));
    }
    let eq_id = ObjectId(pair_string("Eq", &f.id.0, &g.id.0));
    let eq_name = pair_string("Equalizer", &f.id.0, &g.id.0);
    let eq_obj = Object::new(eq_id.0.as_str(), eq_name.as_str());
    let ghost c0 = *cat;
    add_fresh_object(cat, &eq_id.0, &eq_name);
    let ghost c1 = *cat;
    let morph = Morphism::new(
        String::from_str("eq_mor_").concat(eq_id.0.as_str()).as_str(),
        eq_id.clone(),
        f.source.clone(),
    ).with_label("equalizer_morphism");
    match cat.add_morphism(morph.clone()) {
        Ok(()) => {},
        Err(e) => {
            proof {
                assert(object_added(c0, c1, eq_id@, eq_name@));
                assert(!c1.has_object(f.source@));
                assert(*cat == c1);
                assert(arrows_appended(c0, *cat, Seq::<Morphism>::empty()));
                assert(c1.object_table() == c1.object_table() && c1.object_order() == c1.object_order());
            }
            return Err(e);
        },
    }
    proof {
        lemma_chain_arrows(c0, c1, *cat, morph);
    }
    let mut projections: Vec<(ObjectId, Morphism)> = Vec::new();
    projections.push((f.source.clone(), morph));
    Ok(LimitResult { limit_object: eq_obj, cone: Cone { apex: eq_id, projections }, is_universal: true })
}

/// What `pullback` leaves in the category and returns.
pub open spec fn pullback_outcome(before: Category, after: Category, f: Morphism, g: Morphism, r: Result<LimitResult, String>) -> bool {
    &&& (f.target@ != g.target@ ==> (after == before && (r matches Err(e)
            && e@ == "Morphisms must share a common target"@)))
    &&& (f.target@ == g.target@ ==> {
            let pid = pair_text("PB"@, f.id@, g.id@);
            let pname = pair_text("Pullback"@, f.id@, g.id@);
            let has_f = before.has_object(f.source@) || f.source@ == pid;
            let has_g = before.has_object(g.source@) || g.source@ == pid;
            &&& r.is_ok() == (has_f && has_g)
            &&& exists|mid: Category| object_added(before, mid, pid, pname) && after.object_table() == mid.object_table()
                && after.object_order() == mid.object_order() && after.name_of() == mid.name_of()
            &&& r matches Err(e) ==> e@ == "Source or target object not in category"@ && (!has_f
                ==> arrows_appended(before, after, Seq::<Morphism>::empty())) && (has_f
                ==> exists|m: Morphism| arrow_is(m, "pb_π1_"@ + pid, pid, f.source@, Seq::<char>::empty())
                && arrows_appended(before, after, seq![m]))
            &&& r matches Ok(res) ==> {
                &&& fresh_object(res.limit_object, pid, pname)
                &&& res.is_universal
                &&& res.cone.apex@ == pid
                &&& res.cone.projections@.len() == 2
                &&& res.cone.projections@[0].0 == f.source
                &&& res.cone.projections@[1].0 == g.source
                &&& arrow_is(res.cone.projections@[0].1, "pb_π1_"@ + pid, pid, f.source@, Seq::<char>::empty())
                &&& arrow_is(res.cone.projections@[1].1, "pb_π2_"@ + pid, pid, g.source@, Seq::<char>::empty())
                &&& arrows_appended(before, after, seq![res.cone.projections@[0].1, res.cone.projections@[1].1])
            }
        })
}

/// Compute the pullback of two morphisms with a common target.
pub fn pullback(cat: &mut Category, f: &Morphism, g: &Morphism) -> (r: Result<LimitResult, String>)
    requires
        old(cat).wf(),
    ensures
        final(cat).wf(),
        pullback_outcome(*old(cat), *final(cat), *f, *g, r),
{
    if !f.target.same_key(&g.target) {
        return Err(String::from_str("Morphisms must share a common target"));
    }
    let pb_id = ObjectId(pair_string("PB", &f.id.0, &g.id.0));
    let pb_name = pair_string("Pullback", &f.id.0, &g.id.0);
    let pb_obj = Object::new(pb_id.0.as_str(), pb_name.as_str());
    let ghost c0 = *cat;
    add_fresh_object(cat, &pb_id.0, &pb_name);
    let ghost c1 = *cat;
    let proj_a = Morphism::new(
        String::from_str("pb_π1_").concat(pb_id.0.as_str()).as_str(),
        pb_id.clone(),
        f.source.clone(),
    );
    let proj_b = Morphism::new(
        String::from_str("pb_π2_").concat(pb_id.0.as_str()).as_str(),
        pb_id.clone(),
        g.source.clone(),
    );
    match cat.add_morphism(proj_a.clone()) {
        Ok(()) => {},
        Err(e) => {
            proof {
                assert(object_added(c0, c1, pb_id@, pb_name@));
                assert(!c1.has_object(f.source@));
                assert(*cat == c1);
                assert(arrows_appended(c0, *cat, Seq::<Morphism>::empty()));
                assert(c1.object_table() == c1.object_table() && c1.object_order() == c1.object_order());
            }
            return Err(e);
        },
    }
    let ghost c2 = *cat;
    proof {
        lemma_chain_arrows(c0, c1, c2, proj_a);
        assert(object_added(c0, c1, pb_id@, pb_name@));
    }
    match cat.add_morphism(proj_b.clone()) {
        Ok(()) => {},
        Err(e) => {
            proof {
                assert(!c2.has_object(g.source@));
                assert(c2.object_table() == c1.object_table());
                assert(*cat == c2);
                assert(arrows_appended(c0, *cat, seq![proj_a]));
                assert(arrow_is(proj_a, "pb_π1_"@ + pb_id@, pb_id@, f.source@, Seq::<char>::empty()));
                assert(object_added(c0, c1, pb_id@, pb_name@));
                assert(cat.object_table() == c1.object_table());
                assert(cat.object_order() == c1.object_order());
                assert(cat.name_of() == c1.name_of());
                assert(exists|mid: Category| object_added(c0, mid, pb_id@, pb_name@) && cat.object_table() == mid.object_table()
                    && cat.object_order() == mid.object_order() && cat.name_of() == mid.name_of());
                assert(exists|m: Morphism| arrow_is(m, "pb_π1_"@ + pb_id@, pb_id@, f.source@, Seq::<char>::empty()) && arrows_appended(c0, *cat, seq![m]));
            }
            return Err(e);
        },
    }
    proof {
        lemma_chain_arrows2(c0, c2, *cat, proj_a, proj_b);
    }
    let mut projections: Vec<(ObjectId, Morphism)> = Vec::new();
    projections.push((f.source.clone(), proj_a));
    projections.push((g.source.clone(), proj_b));
    Ok(LimitResult { limit_object: pb_obj, cone: Cone { apex: pb_id, projections }, is_universal: true })
}

/// What `pushout` leaves in the category and returns.
pub open spec fn pushout_outcome(before: Category, after: Category, f: Morphism, g: Morphism, r: Result<ColimitResult, String>) -> bool {
    &&& (f.source@ != g.source@ ==> (after == before && (r matches Err(e)
            && e@ == "Morphisms must share a common source"@)))
    &&& (f.source@ == g.source@ ==> {
            let pid = pair_text("PO"@, f.id@, g.id@);
            let pname = pair_text("Pushout"@, f.id@, g.id@);
            let has_f = before.has_object(f.target@) || f.target@ == pid;
            let has_g = before.has_object(g.target@) || g.target@ == pid;
            &&& r.is_ok() == (has_f && has_g)
            &&& exists|mid: Category| object_added(before, mid, pid, pname) && after.object_table() == mid.object_table()
                && after.object_order() == mid.object_order() && after.name_of() == mid.name_of()
            &&& r matches Err(e) ==> e@ == "Source or target object not in category"@ && (!has_f
                ==> arrows_appended(before, after, Seq::<Morphism>::empty())) && (has_f
                ==> exists|m: Morphism| arrow_is(m, "po_ι1_"@ + pid, f.target@, pid, Seq::<char>::empty())
                && arrows_appended(before, after, seq![m]))
            &&& r matches Ok(res) ==> {
                &&& fresh_object(res.colimit_object, pid, pname)
                &&& res.is_universal
                &&& res.cocone.nadir@ == pid
                &&& res.cocone.injections@.len() == 2
                &&& res.cocone.injections@[0].0 == f.target
                &&& res.cocone.injections@[1].0 == g.target
                &&& arrow_is(res.cocone.injections@[0].1, "po_ι1_"@ + pid, f.target@, pid, Seq::<char>::empty())
                &&& arrow_is(res.cocone.injections@[1].1, "po_ι2_"@ + pid, g.target@, pid, Seq::<char>::empty())
                &&& arrows_appended(before, after, seq![res.cocone.injections@[0].1, res.cocone.injections@[1].1])
            }
        })
}

/// Compute the pushout of two morphisms with a common source.
pub fn pushout(cat: &mut Category, f: &Morphism, g: &Morphism) -> (r: Result<ColimitResult, String>)
    requires
        old(cat).wf(),
    ensures
        final(cat).wf(),
        pushout_outcome(*old(cat), *final(cat), *f, *g, r),
{
    if !f.source.same_key(&g.source) {
        return Err(String::from_str("Morphisms must share a common source"));
    }
    let po_id = ObjectId(pair_string("PO", &f.id.0, &g.id.0));
    let po_name = pair_string("Pushout", &f.id.0, &g.id.0);
    let po_obj = Object::new(po_id.0.as_str(), po_name.as_str());
    let ghost c0 = *cat;
    add_fresh_object(cat, &po_id.0, &po_name);
    let ghost c1 = *cat;
    let inj_a = Morphism::new(
        String::from_str("po_ι1_").concat(po_id.0.as_str()).as_str(),
        f.target.clone(),
        po_id.clone(),
    );
    let inj_b = Morphism::new(
        String::from_str("po_ι2_").concat(po_id.0.as_str()).as_str(),
        g.target.clone(),
        po_id.clone(),
    );
    match cat.add_morphism(inj_a.clone()) {
        Ok(()) => {},
        Err(e) => {
            proof {
                assert(object_added(c0, c1, po_id@, po_name@));
                assert(!c1.has_object(f.target@));
                assert(*cat == c1);
                assert(arrows_appended(c0, *cat, Seq::<Morphism>::empty()));
                assert(c1.object_table() == c1.object_table() && c1.object_order() == c1.object_order());
            }
            return Err(e);
        },
    }
    let ghost c2 = *cat;
    proof {
        lemma_chain_arrows(c0, c1, c2, inj_a);
        assert(object_added(c0, c1, po_id@, po_name@));
    }
    match cat.add_morphism(inj_b.clone()) {
        Ok(()) => {},
        Err(e) => {
            proof {
                assert(!c2.has_object(g.target@));
                assert(c2.object_table() == c1.object_table());
                assert(*cat == c2);
                assert(arrows_appended(c0, *cat, seq![inj_a]));
                assert(arrow_is(inj_a, "po_ι1_"@ + po_id@, f.target@, po_id@, Seq::<char>::empty()));
                assert(object_added(c0, c1, po_id@, po_name@));
                assert(cat.object_table() == c1.object_table());
                assert(cat.object_order() == c1.object_order());
                assert(cat.name_of() == c1.name_of());
                assert(exists|mid: Category| object_added(c0, mid, po_id@, po_name@) && cat.object_table() == mid.object_table()
                    && cat.object_order() == mid.object_order() && cat.name_of() == mid.name_of());
                assert(exists|m: Morphism| arrow_is(m, "po_ι1_"@ + po_id@, f.target@, po_id@, Seq::<char>::empty()) && arrows_appended(c0, *cat, seq![m]));
            }
            return Err(e);
        },
    }
    proof {
        lemma_chain_arrows2(c0, c2, *cat, inj_a, inj_b);
    }
    let mut injections: Vec<(ObjectId, Morphism)> = Vec::new();
    injections.push((f.target.clone(), inj_a));
    injections.push((g.target.clone(), inj_b));
    Ok(ColimitResult { colimit_object: po_obj, cocone: Cocone { nadir: po_id, injections }, is_universal: true })
}

/// Each morphism listed in `ms` is among the morphisms of `ms` between
/// its own source and target.
proof fn lemma_seq_between_holds(ms: Seq<Morphism>, k: int)
    requires
        0 <= k < ms.len(),
    ensures
        seq_between(ms, ms[k].source@, ms[k].target@).len() > 0,
    decreases ms.len(),
{
    let s = ms[k].source@;
    let t = ms[k].target@;
    if k < ms.len() - 1 {
        let m0 = ms.drop_last();
        assert(m0[k] == ms[k]);
        lemma_seq_between_holds(m0, k);
    }
}

/// After morphisms are appended, each of them joins its source to its target.
proof fn lemma_appended_arrow(before: Category, after: Category, ms: Seq<Morphism>, k: int)
    requires
        arrows_appended(before, after, ms),
        0 <= k < ms.len(),
    ensures
        after.has_arrow(ms[k].source@, ms[k].target@),
{
    lemma_seq_between_holds(ms, k);
    let s = ms[k].source@;
    let t = ms[k].target@;
    assert(after.arrows_between(s, t) == before.arrows_between(s, t) + seq_between(ms, s, t));
}

/// The product's projections go out of the product object: the first into
/// `a`, the second into `b`; afterwards the category has a morphism from
/// the product object to each factor.
pub proof fn law_product_projections(before: Category, after: Category, a: ObjectId, b: ObjectId, res: LimitResult)
    requires
        product_outcome(before, after, a, b, Ok(res)),
    ensures
        res.cone.projections@.len() == 2,
        res.cone.projections@[0].1.source@ == res.limit_object.id@,
        res.cone.projections@[0].1.target@ == a@,
        res.cone.projections@[1].1.source@ == res.limit_object.id@,
        res.cone.projections@[1].1.target@ == b@,
        after.has_arrow(res.limit_object.id@, a@),
        after.has_arrow(res.limit_object.id@, b@),
{
    let ms = seq![res.cone.projections@[0].1, res.cone.projections@[1].1];
    lemma_appended_arrow(before, after, ms, 0);
    lemma_appended_arrow(before, after, ms, 1);
}

/// The coproduct's injections go into the coproduct object: the first out
/// of `a`, the second out of `b`; afterwards the category has a morphism
/// from each summand to the coproduct object.
pub proof fn law_coproduct_injections(before: Category, after: Category, a: ObjectId, b: ObjectId, res: ColimitResult)
    requires
        coproduct_outcome(before, after, a, b, Ok(res)),
    ensures
        res.cocone.injections@.len() == 2,
        res.cocone.injections@[0].1.source@ == a@,
        res.cocone.injections@[0].1.target@ == res.colimit_object.id@,
        res.cocone.injections@[1].1.source@ == b@,
        res.cocone.injections@[1].1.target@ == res.colimit_object.id@,
        after.has_arrow(a@, res.colimit_object.id@),
        after.has_arrow(b@, res.colimit_object.id@),
{
    let ms = seq![res.cocone.injections@[0].1, res.cocone.injections@[1].1];
    lemma_appended_arrow(before, after, ms, 0);
    lemma_appended_arrow(before, after, ms, 1);
}

/// The equalizer's morphism goes from the equalizer object into the common
/// source of `f` and `g`; afterwards the category has such a morphism.
pub proof fn law_equalizer_morphism(before: Category, after: Category, f: Morphism, g: Morphism, res: LimitResult)
    requires
        equalizer_outcome(before, after, f, g, Ok(res)),
    ensures
        f.source@ == g.source@,
        f.target@ == g.target@,
        res.cone.projections@.len() == 1,
        res.cone.projections@[0].1.source@ == res.limit_object.id@,
        res.cone.projections@[0].1.target@ == f.source@,
        after.has_arrow(res.limit_object.id@, f.source@),
{
    let ms = seq![res.cone.projections@[0].1];
    lemma_appended_arrow(before, after, ms, 0);
}

/// The pullback's projections go out of the pullback object: the first into
/// the source of `f`, the second into the source of `g`; afterwards the
/// category has both morphisms.
pub proof fn law_pullback_projections(before: Category, after: Category, f: Morphism, g: Morphism, res: LimitResult)
    requires
        pullback_outcome(before, after, f, g, Ok(res)),
    ensures
        f.target@ == g.target@,
        res.cone.projections@.len() == 2,
        res.cone.projections@[0].1.source@ == res.limit_object.id@,
        res.cone.projections@[0].1.target@ == f.source@,
        res.cone.projections@[1].1.source@ == res.limit_object.id@,
        res.cone.projections@[1].1.target@ == g.source@,
        after.has_arrow(res.limit_object.id@, f.source@),
        after.has_arrow(res.limit_object.id@, g.source@),
{
    let ms = seq![res.cone.projections@[0].1, res.cone.projections@[1].1];
    lemma_appended_arrow(before, after, ms, 0);
    lemma_appended_arrow(before, after, ms, 1);
}

/// The pushout's injections go into the pushout object: the first out of
/// the target of `f`, the second out of the target of `g`; afterwards the
/// category has both morphisms.
pub proof fn law_pushout_injections(before: Category, after: Category, f: Morphism, g: Morphism, res: ColimitResult)
    requires
        pushout_outcome(before, after, f, g, Ok(res)),
    ensures
        f.source@ == g.source@,
        res.cocone.injections@.len() == 2,
        res.cocone.injections@[0].1.source@ == f.target@,
        res.cocone.injections@[0].1.target@ == res.colimit_object.id@,
        res.cocone.injections@[1].1.source@ == g.target@,
        res.cocone.injections@[1].1.target@ == res.colimit_object.id@,
        after.has_arrow(f.target@, res.colimit_object.id@),
        after.has_arrow(g.target@, res.colimit_object.id@),
{
    let ms = seq![res.cocone.injections@[0].1, res.cocone.injections@[1].1];
    lemma_appended_arrow(before, after, ms, 0);
    lemma_appended_arrow(before, after, ms, 1);
}

} // verus!
